use crate::domain::{Domain, MAX_VALUE, narrowed_to};
use crate::store::{
    VariableStore, seq_inv, seq_all_assigned, seq_vals, vals_in, within, same_doms,
};
use vstd::prelude::*;

verus! {

/// A primitive binary constraint over two variables.
pub enum Lit {
    Eq(usize, usize),
    Neq(usize, usize),
}

/// A conjunction of primitive constraints; one branch of a disjunction.
pub struct Conj {
    pub lits: Vec<Lit>,
}

/// A propagator: a stateless rule that narrows variable domains without
/// removing any complete assignment that satisfies it.
pub enum Prop {
    /// The two variables take the same value.
    Equal(usize, usize),
    /// The two variables take different values.
    NotEqual(usize, usize),
    /// The sum of the listed variables stays at or below the bound.
    BoundedSum(Vec<usize>, i64),
    /// The listed variables take pairwise distinct values.
    AllDifferent(Vec<usize>),
    /// Every member constraint holds.
    Conjunction(Vec<Lit>),
    /// At least one branch holds.
    Disjunction(Vec<Conj>),
}

pub open spec fn lit_wf(l: Lit, n: int) -> bool {
    match l {
        Lit::Eq(x, y) => (x as int) < n && (y as int) < n,
        Lit::Neq(x, y) => (x as int) < n && (y as int) < n,
    }
}

pub open spec fn conj_wf(ls: Seq<Lit>, n: int) -> bool {
    forall|k: int| 0 <= k < ls.len() ==> lit_wf(#[trigger] ls[k], n)
}

pub open spec fn ids_wf(xs: Seq<usize>, n: int) -> bool {
    forall|t: int| 0 <= t < xs.len() ==> (#[trigger] xs[t] as int) < n
}

/// Well-formedness of a propagator over a store of `n` variables.
pub open spec fn prop_wf(p: Prop, n: int) -> bool {
    match p {
        Prop::Equal(x, y) => (x as int) < n && (y as int) < n,
        Prop::NotEqual(x, y) => (x as int) < n && (y as int) < n,
        Prop::BoundedSum(xs, k) => ids_wf(xs@, n) && 0 <= k <= MAX_VALUE
            && xs@.len() <= MAX_VALUE,
        Prop::AllDifferent(xs) => ids_wf(xs@, n) && xs@.len() <= MAX_VALUE,
        Prop::Conjunction(ls) => conj_wf(ls@, n),
        Prop::Disjunction(cs) => forall|b: int| 0 <= b < cs@.len()
            ==> conj_wf((#[trigger] cs@[b]).lits@, n),
    }
}

/// Does the full assignment `vals` satisfy the primitive constraint?
pub open spec fn lit_sat(l: Lit, vals: Seq<i64>) -> bool {
    match l {
        Lit::Eq(x, y) => vals[x as int] == vals[y as int],
        Lit::Neq(x, y) => vals[x as int] != vals[y as int],
    }
}

pub open spec fn conj_sat(ls: Seq<Lit>, vals: Seq<i64>) -> bool {
    forall|k: int| 0 <= k < ls.len() ==> lit_sat(#[trigger] ls[k], vals)
}

/// The sum of the values of the listed variables.
pub open spec fn sum_vals(xs: Seq<usize>, vals: Seq<i64>) -> int
    decreases xs.len(),
{
    if xs.len() == 0 {
        0
    } else {
        sum_vals(xs.drop_last(), vals) + vals[xs.last() as int]
    }
}

/// All listed variables take pairwise distinct values under `vals`.
pub open spec fn alldiff_sat(xs: Seq<usize>, vals: Seq<i64>) -> bool {
    forall|a: int, b: int| 0 <= a < b < xs.len()
        ==> vals[#[trigger] xs[a] as int] != vals[#[trigger] xs[b] as int]
}

/// No assignment within the domains of `st` satisfies branch `b`.
pub open spec fn bad_branch(cs: Seq<Conj>, b: int, st: Seq<Domain>) -> bool {
    forall|vals: Seq<i64>| vals_in(vals, st) ==> !conj_sat(cs[b].lits@, vals)
}

/// Does the full assignment `vals` satisfy the propagator's constraint?
pub open spec fn prop_sat(p: Prop, vals: Seq<i64>) -> bool {
    match p {
        Prop::Equal(x, y) => vals[x as int] == vals[y as int],
        Prop::NotEqual(x, y) => vals[x as int] != vals[y as int],
        Prop::BoundedSum(xs, k) => sum_vals(xs@, vals) <= k,
        Prop::AllDifferent(xs) => alldiff_sat(xs@, vals),
        Prop::Conjunction(ls) => conj_sat(ls@, vals),
        Prop::Disjunction(cs) => exists|b: int| 0 <= b < cs@.len()
            && conj_sat((#[trigger] cs@[b]).lits@, vals),
    }
}

/// Which variables a primitive constraint reads or narrows.
pub open spec fn lit_watches(l: Lit, i: int) -> bool {
    match l {
        Lit::Eq(x, y) => i == x as int || i == y as int,
        Lit::Neq(x, y) => i == x as int || i == y as int,
    }
}

pub open spec fn conj_watches(ls: Seq<Lit>, i: int) -> bool {
    exists|k: int| 0 <= k < ls.len() && lit_watches(#[trigger] ls[k], i)
}

/// One step of summation over a prefix.
pub proof fn lemma_sum_take_step(xs: Seq<usize>, vals: Seq<i64>, i: int)
    requires
        0 <= i < xs.len(),
    ensures
        sum_vals(xs.take(i + 1), vals) == sum_vals(xs.take(i), vals) + vals[xs[i] as int],
{
    let t = xs.take(i + 1);
    assert(t.drop_last() =~= xs.take(i));
    assert(t.last() == xs[i]);
}

/// With non-negative entries, a sum dominates the sum of any prefix.
pub proof fn lemma_sum_suffix_ge(xs: Seq<usize>, vals: Seq<i64>, i: int)
    requires
        0 <= i <= xs.len(),
        forall|t: int| 0 <= t < xs.len() ==> vals[#[trigger] xs[t] as int] >= 0,
    ensures
        sum_vals(xs, vals) >= sum_vals(xs.take(i), vals),
    decreases xs.len() - i,
{
    if i == xs.len() {
        assert(xs.take(i) =~= xs);
    } else {
        lemma_sum_take_step(xs, vals, i);
        lemma_sum_suffix_ge(xs, vals, i + 1);
    }
}

/// A pointwise-dominating assignment has a dominating sum, and the slack is
/// at least the slack at any one position.
pub proof fn lemma_sum_pointwise_except(xs: Seq<usize>, v1: Seq<i64>, v2: Seq<i64>, p: int)
    requires
        forall|t: int| 0 <= t < xs.len() ==> v1[#[trigger] xs[t] as int] >= v2[xs[t] as int],
        0 <= p < xs.len(),
    ensures
        sum_vals(xs, v1) >= sum_vals(xs, v2) + v1[xs[p] as int] - v2[xs[p] as int],
    decreases xs.len(),
{
    let d = xs.drop_last();
    assert forall|t: int| 0 <= t < d.len() implies v1[#[trigger] d[t] as int]
        >= v2[d[t] as int] by {
        assert(d[t] == xs[t]);
    }
    if p == xs.len() - 1 {
        lemma_sum_pointwise(d, v1, v2);
    } else {
        assert(d[p] == xs[p]);
        lemma_sum_pointwise_except(d, v1, v2, p);
    }
}

/// A pointwise-dominating assignment has a dominating sum.
pub proof fn lemma_sum_pointwise(xs: Seq<usize>, v1: Seq<i64>, v2: Seq<i64>)
    requires
        forall|t: int| 0 <= t < xs.len() ==> v1[#[trigger] xs[t] as int] >= v2[xs[t] as int],
    ensures
        sum_vals(xs, v1) >= sum_vals(xs, v2),
    decreases xs.len(),
{
    if xs.len() > 0 {
        let d = xs.drop_last();
        assert forall|t: int| 0 <= t < d.len() implies v1[#[trigger] d[t] as int]
            >= v2[d[t] as int] by {
            assert(d[t] == xs[t]);
        }
        lemma_sum_pointwise(d, v1, v2);
    }
}

/// Pigeonhole: pairwise distinct values inside `[lo, hi]` are at most
/// `hi - lo + 1` many.
pub proof fn lemma_pigeonhole(s: Seq<i64>, lo: int, hi: int)
    requires
        lo <= hi,
        forall|a: int| 0 <= a < s.len() ==> lo <= #[trigger] s[a] <= hi,
        forall|a: int, b: int| 0 <= a < b < s.len() ==> s[a] != s[b],
    ensures
        s.len() <= hi - lo + 1,
{
    let t = Seq::new(s.len(), |i: int| s[i] as int);
    assert(t.no_duplicates()) by {
        assert forall|a: int, b: int| 0 <= a < t.len() && 0 <= b < t.len() && a != b
            implies t[a] != t[b] by {
            if a < b {
                assert(s[a] != s[b]);
            } else {
                assert(s[b] != s[a]);
            }
        }
    }
    t.unique_seq_to_set();
    let rng = vstd::set_lib::set_int_range(lo, hi + 1);
    vstd::set_lib::lemma_int_range(lo, hi + 1);
    assert(t.to_set().subset_of(rng)) by {
        assert forall|x: int| t.to_set().contains(x) implies rng.contains(x) by {
            let a = choose|a: int| 0 <= a < t.len() && t[a] == x;
            assert(lo <= s[a] <= hi);
        }
    }
    vstd::set_lib::lemma_len_subset(t.to_set(), rng);
}

/// After narrowing `x` by `y`'s domain and then `y` by the narrowed `x`,
/// both hold the intersection: no equal-valued assignment is lost.
proof fn lemma_eq_ok(
    pre: Seq<Domain>,
    mid: Seq<Domain>,
    fin: Seq<Domain>,
    dy: Domain,
    dx: Domain,
    x: int,
    y: int,
)
    requires
        0 <= x < pre.len(),
        0 <= y < pre.len(),
        x != y,
        mid.len() == pre.len(),
        fin.len() == mid.len(),
        dy@ == pre[y]@,
        dx@ == mid[x]@,
        forall|i: int| 0 <= i < pre.len() && i != x ==> mid[i] == pre[i],
        narrowed_to(mid[x], pre[x], dy),
        forall|i: int| 0 <= i < mid.len() && i != y ==> fin[i] == mid[i],
        narrowed_to(fin[y], mid[y], dx),
    ensures
        within(fin, pre),
        forall|vals: Seq<i64>| vals_in(vals, pre) && vals[x] == vals[y]
            ==> vals_in(vals, fin),
{
    assert forall|i: int, v: int| 0 <= i < fin.len() && #[trigger] fin[i].contains_spec(v)
        implies pre[i].contains_spec(v) by {
        if i == y {
            assert(mid[i].contains_spec(v));
            assert(mid[i] == pre[i]);
        } else if i == x {
            assert(fin[i] == mid[i]);
            assert(mid[i].contains_spec(v));
        } else {
            assert(fin[i] == mid[i] && mid[i] == pre[i]);
        }
    }
    assert forall|vals: Seq<i64>| vals_in(vals, pre) && vals[x] == vals[y]
        implies vals_in(vals, fin) by {
        let w = vals[x] as int;
        assert(pre[x].contains_spec(w));
        assert(pre[y].contains_spec(w));
        assert(dy.contains_spec(w));
        assert(mid[x].contains_spec(w));
        assert(dx.contains_spec(w));
        assert(mid[y] == pre[y]);
        assert(fin[y].contains_spec(w));
        assert forall|i: int| 0 <= i < fin.len() implies
            (#[trigger] fin[i]).contains_spec(vals[i] as int) by {
            if i == x {
                assert(fin[i] == mid[i]);
            } else if i == y {
            } else {
                assert(fin[i] == mid[i] && mid[i] == pre[i]);
            }
        }
    }
}

/// Narrow both variables of an equality to the intersection of their
/// domains, or fail if the intersection is empty.
#[verifier::rlimit(100)]
fn propagate_eq(vs: &mut VariableStore, x: usize, y: usize) -> (r: Result<bool, ()>)
    requires
        old(vs).inv(),
        (x as int) < old(vs)@.len(),
        (y as int) < old(vs)@.len(),
    ensures
        final(vs).inv(),
        final(vs)@.len() == old(vs)@.len(),
        within(final(vs)@, old(vs)@),
        forall|i: int| 0 <= i < old(vs)@.len() && i != x as int && i != y as int
            ==> final(vs)@[i] == old(vs)@[i],
        match r {
            Ok(changed) => {
                &&& !changed ==> final(vs)@ == old(vs)@
                &&& seq_all_assigned(old(vs)@) ==> final(vs)@ == old(vs)@ && !changed
                    && seq_vals(old(vs)@)[x as int] == seq_vals(old(vs)@)[y as int]
                &&& forall|vals: Seq<i64>| vals_in(vals, old(vs)@)
                    && vals[x as int] == vals[y as int] ==> vals_in(vals, final(vs)@)
            },
            Err(_) => forall|vals: Seq<i64>| vals_in(vals, old(vs)@)
                ==> vals[x as int] != vals[y as int],
        },
{
    let ghost pre = vs@;
    if x == y {
        return Ok(false);
    }
    let dy = vs.domain_at(y).copy_of();
    proof {
        assert(dy@ == pre[y as int]@);
    }
    match vs.narrow(x, &dy) {
        Err(_) => {
            proof {
                assert forall|vals: Seq<i64>| vals_in(vals, pre)
                    implies vals[x as int] != vals[y as int] by {
                    assert(pre[x as int].contains_spec(vals[x as int] as int));
                    assert(pre[y as int].contains_spec(vals[y as int] as int));
                    if vals[x as int] == vals[y as int] {
                        assert(dy.contains_spec(vals[x as int] as int));
                        assert(false);
                    }
                }
            }
            Err(())
        },
        Ok(c1) => {
            let ghost mid = vs@;
            let dx = vs.domain_at(x).copy_of();
            proof {
                assert(dx@ == mid[x as int]@);
            }
            match vs.narrow(y, &dx) {
                Err(_) => {
                    proof {
                        assert forall|vals: Seq<i64>| vals_in(vals, pre)
                            implies vals[x as int] != vals[y as int] by {
                            if vals[x as int] == vals[y as int] {
                                let w = vals[y as int] as int;
                                assert(pre[x as int].contains_spec(w));
                                assert(pre[y as int].contains_spec(w));
                                assert(dy.contains_spec(w));
                                assert(mid[x as int].contains_spec(w));
                                assert(dx.contains_spec(w));
                                assert(mid[y as int] == pre[y as int]);
                                assert(false);
                            }
                        }
                    }
                    Err(())
                },
                Ok(c2) => {
                    proof {
                        let fin = vs@;
                        lemma_eq_ok(pre, mid, fin, dy, dx, x as int, y as int);
                        if seq_all_assigned(pre) {
                            assert(pre[x as int].assigned_spec());
                            assert(pre[y as int].assigned_spec());
                            assert(!c1 && mid == pre);
                            assert(!c2 && fin == pre);
                            let md = mid[x as int];
                            md.lemma_bounds();
                            let w = md.lower_spec() as int;
                            assert(md.contains_spec(w));
                            assert(pre[x as int].contains_spec(w));
                            assert(dy.contains_spec(w));
                            assert(pre[y as int].contains_spec(w));
                            pre[x as int].lemma_assigned();
                            pre[y as int].lemma_assigned();
                            assert(seq_vals(pre)[x as int] == pre[x as int].lower_spec());
                            assert(seq_vals(pre)[y as int] == pre[y as int].lower_spec());
                        }
                        if !(c1 || c2) {
                            assert(vs@ == pre);
                        }
                    }
                    Ok(c1 || c2)
                },
            }
        },
    }
}

/// If one side of a disequality is assigned, remove its value from the other
/// side; fail if both sides are assigned to the same value.
#[verifier::rlimit(100)]
fn propagate_neq(vs: &mut VariableStore, x: usize, y: usize) -> (r: Result<bool, ()>)
    requires
        old(vs).inv(),
        (x as int) < old(vs)@.len(),
        (y as int) < old(vs)@.len(),
    ensures
        final(vs).inv(),
        final(vs)@.len() == old(vs)@.len(),
        within(final(vs)@, old(vs)@),
        forall|i: int| 0 <= i < old(vs)@.len() && i != x as int && i != y as int
            ==> final(vs)@[i] == old(vs)@[i],
        match r {
            Ok(changed) => {
                &&& !changed ==> final(vs)@ == old(vs)@
                &&& seq_all_assigned(old(vs)@) ==> final(vs)@ == old(vs)@ && !changed
                    && seq_vals(old(vs)@)[x as int] != seq_vals(old(vs)@)[y as int]
                &&& forall|vals: Seq<i64>| vals_in(vals, old(vs)@)
                    && vals[x as int] != vals[y as int] ==> vals_in(vals, final(vs)@)
            },
            Err(_) => forall|vals: Seq<i64>| vals_in(vals, old(vs)@)
                ==> vals[x as int] == vals[y as int],
        },
{
    let ghost pre = vs@;
    if x == y {
        return Err(());
    }
    let xa = vs.domain_at(x).is_assigned();
    let ya = vs.domain_at(y).is_assigned();
    if xa && ya {
        let vx = vs.domain_at(x).lower();
        let vy = vs.domain_at(y).lower();
        proof {
            pre[x as int].lemma_assigned();
            pre[y as int].lemma_assigned();
        }
        if vx == vy {
            proof {
                assert forall|vals: Seq<i64>| vals_in(vals, pre)
                    implies vals[x as int] == vals[y as int] by {
                    assert(pre[x as int].contains_spec(vals[x as int] as int));
                    assert(pre[y as int].contains_spec(vals[y as int] as int));
                }
            }
            Err(())
        } else {
            proof {
                assert(seq_vals(pre)[x as int] == vx);
                assert(seq_vals(pre)[y as int] == vy);
            }
            Ok(false)
        }
    } else if xa {
        let vx = vs.domain_at(x).lower();
        proof {
            pre[x as int].lemma_bounds();
            pre[x as int].lemma_assigned();
        }
        let nd = vs.domain_at(y).remove_value(vx);
        match vs.narrow(y, &nd) {
            Err(_) => {
                proof {
                    let dy = pre[y as int];
                    dy.lemma_two_values();
                    let w: i64 = if dy.lower_spec() != vx {
                        dy.lower_spec()
                    } else {
                        dy.upper_spec()
                    };
                    assert(dy.contains_spec(w as int));
                    assert(nd.contains_spec(w as int));
                    assert(false);
                }
                Err(())
            },
            Ok(c) => {
                proof {
                    let fin = vs@;
                    assert forall|i: int, v: int| 0 <= i < fin.len()
                        && #[trigger] fin[i].contains_spec(v)
                        implies pre[i].contains_spec(v) by {
                        if i != y as int {
                            assert(fin[i] == pre[i]);
                        }
                    }
                    assert forall|vals: Seq<i64>| vals_in(vals, pre)
                        && vals[x as int] != vals[y as int] implies vals_in(vals, fin) by {
                        assert(pre[x as int].contains_spec(vals[x as int] as int));
                        assert(vals[x as int] == vx);
                        assert forall|i: int| 0 <= i < fin.len() implies
                            (#[trigger] fin[i]).contains_spec(vals[i] as int) by {
                            if i == y as int {
                                assert(pre[i].contains_spec(vals[i] as int));
                                assert(vals[i] != vx);
                                assert(nd.contains_spec(vals[i] as int));
                            } else {
                                assert(fin[i] == pre[i]);
                            }
                        }
                    }
                    assert(!seq_all_assigned(pre)) by {
                        assert(!pre[y as int].assigned_spec());
                    }
                }
                Ok(c)
            },
        }
    } else if ya {
        let vy = vs.domain_at(y).lower();
        proof {
            pre[y as int].lemma_bounds();
            pre[y as int].lemma_assigned();
        }
        let nd = vs.domain_at(x).remove_value(vy);
        match vs.narrow(x, &nd) {
            Err(_) => {
                proof {
                    let dx = pre[x as int];
                    dx.lemma_two_values();
                    let w: i64 = if dx.lower_spec() != vy {
                        dx.lower_spec()
                    } else {
                        dx.upper_spec()
                    };
                    assert(dx.contains_spec(w as int));
                    assert(nd.contains_spec(w as int));
                    assert(false);
                }
                Err(())
            },
            Ok(c) => {
                proof {
                    let fin = vs@;
                    assert forall|i: int, v: int| 0 <= i < fin.len()
                        && #[trigger] fin[i].contains_spec(v)
                        implies pre[i].contains_spec(v) by {
                        if i != x as int {
                            assert(fin[i] == pre[i]);
                        }
                    }
                    assert forall|vals: Seq<i64>| vals_in(vals, pre)
                        && vals[x as int] != vals[y as int] implies vals_in(vals, fin) by {
                        assert(pre[y as int].contains_spec(vals[y as int] as int));
                        assert(vals[y as int] == vy);
                        assert forall|i: int| 0 <= i < fin.len() implies
                            (#[trigger] fin[i]).contains_spec(vals[i] as int) by {
                            if i == x as int {
                                assert(pre[i].contains_spec(vals[i] as int));
                                assert(vals[i] != vy);
                                assert(nd.contains_spec(vals[i] as int));
                            } else {
                                assert(fin[i] == pre[i]);
                            }
                        }
                    }
                    assert(!seq_all_assigned(pre)) by {
                        assert(!pre[x as int].assigned_spec());
                    }
                }
                Ok(c)
            },
        }
    } else {
        proof {
            assert(!seq_all_assigned(pre)) by {
                assert(!pre[x as int].assigned_spec());
            }
        }
        Ok(false)
    }
}

/// Apply one primitive constraint.
pub fn propagate_lit(vs: &mut VariableStore, l: &Lit) -> (r: Result<bool, ()>)
    requires
        old(vs).inv(),
        lit_wf(*l, old(vs)@.len() as int),
    ensures
        final(vs).inv(),
        final(vs)@.len() == old(vs)@.len(),
        within(final(vs)@, old(vs)@),
        forall|i: int| 0 <= i < old(vs)@.len() && !lit_watches(*l, i)
            ==> final(vs)@[i] == old(vs)@[i],
        match r {
            Ok(changed) => {
                &&& !changed ==> final(vs)@ == old(vs)@
                &&& seq_all_assigned(old(vs)@) ==> final(vs)@ == old(vs)@ && !changed
                    && lit_sat(*l, seq_vals(old(vs)@))
                &&& forall|vals: Seq<i64>| vals_in(vals, old(vs)@) && lit_sat(*l, vals)
                    ==> vals_in(vals, final(vs)@)
            },
            Err(_) => forall|vals: Seq<i64>| vals_in(vals, old(vs)@) ==> !lit_sat(*l, vals),
        },
{
    match *l {
        Lit::Eq(x, y) => propagate_eq(vs, x, y),
        Lit::Neq(x, y) => propagate_neq(vs, x, y),
    }
}


/// Apply every primitive constraint of a conjunction in turn; fail as soon
/// as one fails.
#[verifier::rlimit(100)]
pub fn propagate_conj(vs: &mut VariableStore, ls: &Vec<Lit>) -> (r: Result<bool, ()>)
    requires
        old(vs).inv(),
        conj_wf(ls@, old(vs)@.len() as int),
    ensures
        final(vs).inv(),
        final(vs)@.len() == old(vs)@.len(),
        within(final(vs)@, old(vs)@),
        forall|i: int| 0 <= i < old(vs)@.len() && !conj_watches(ls@, i)
            ==> final(vs)@[i] == old(vs)@[i],
        match r {
            Ok(changed) => {
                &&& !changed ==> final(vs)@ == old(vs)@
                &&& seq_all_assigned(old(vs)@) ==> final(vs)@ == old(vs)@ && !changed
                    && conj_sat(ls@, seq_vals(old(vs)@))
                &&& forall|vals: Seq<i64>| vals_in(vals, old(vs)@) && conj_sat(ls@, vals)
                    ==> vals_in(vals, final(vs)@)
            },
            Err(_) => forall|vals: Seq<i64>| vals_in(vals, old(vs)@) ==> !conj_sat(ls@, vals),
        },
{
    let ghost pre = vs@;
    let n = ls.len();
    let mut changed = false;
    let mut k: usize = 0;
    while k < n
        invariant
            pre == old(vs)@,
            vs.inv(),
            vs@.len() == pre.len(),
            n == ls@.len(),
            0 <= k <= n,
            conj_wf(ls@, pre.len() as int),
            within(vs@, pre),
            forall|i: int| 0 <= i < pre.len() && !conj_watches(ls@, i) ==> vs@[i] == pre[i],
            !changed ==> vs@ == pre,
            seq_all_assigned(pre) ==> vs@ == pre && !changed
                && (forall|t: int| 0 <= t < k ==> lit_sat(#[trigger] ls@[t], seq_vals(pre))),
            forall|vals: Seq<i64>| vals_in(vals, pre) && conj_sat(ls@, vals)
                ==> vals_in(vals, vs@),
        decreases n - k,
    {
        let ghost mid = vs@;
        let r = propagate_lit(vs, &ls[k]);
        match r {
            Err(_) => {
                proof {
                    let fin = vs@;
                    assert forall|i: int, v: int| 0 <= i < fin.len()
                        && #[trigger] fin[i].contains_spec(v) implies pre[i].contains_spec(v) by {
                        assert(mid[i].contains_spec(v));
                    }
                    assert forall|i: int| 0 <= i < pre.len() && !conj_watches(ls@, i)
                        implies fin[i] == pre[i] by {
                        assert(!lit_watches(ls@[k as int], i));
                        assert(fin[i] == mid[i]);
                    }
                    assert forall|vals: Seq<i64>| vals_in(vals, pre)
                        implies !conj_sat(ls@, vals) by {
                        if conj_sat(ls@, vals) {
                            assert(vals_in(vals, mid));
                            assert(lit_sat(ls@[k as int], vals));
                        }
                    }
                }
                return Err(());
            },
            Ok(c) => {
                proof {
                    let fin = vs@;
                    assert forall|i: int, v: int| 0 <= i < fin.len()
                        && #[trigger] fin[i].contains_spec(v) implies pre[i].contains_spec(v) by {
                        assert(mid[i].contains_spec(v));
                    }
                    assert forall|i: int| 0 <= i < pre.len() && !conj_watches(ls@, i)
                        implies fin[i] == pre[i] by {
                        assert(!lit_watches(ls@[k as int], i));
                        assert(fin[i] == mid[i]);
                    }
                    assert forall|vals: Seq<i64>| vals_in(vals, pre) && conj_sat(ls@, vals)
                        implies vals_in(vals, fin) by {
                        assert(vals_in(vals, mid));
                        assert(lit_sat(ls@[k as int], vals));
                    }
                    if seq_all_assigned(pre) {
                        assert(mid == pre);
                        assert(lit_sat(ls@[k as int], seq_vals(pre)));
                    }
                }
                changed = changed || c;
            },
        }
        k = k + 1;
    }
    Ok(changed)
}

/// Bound-consistent propagation of a sum-at-most constraint: fail if the sum
/// of the lower bounds already exceeds the bound, else clamp each variable's
/// upper bound to what the others' lower bounds leave.
#[verifier::rlimit(100)]
fn propagate_sum(vs: &mut VariableStore, xs: &Vec<usize>, bound: i64) -> (r: Result<bool, ()>)
    requires
        old(vs).inv(),
        ids_wf(xs@, old(vs)@.len() as int),
        0 <= bound <= MAX_VALUE,
        xs@.len() <= MAX_VALUE,
    ensures
        final(vs).inv(),
        final(vs)@.len() == old(vs)@.len(),
        within(final(vs)@, old(vs)@),
        match r {
            Ok(changed) => {
                &&& !changed ==> final(vs)@ == old(vs)@
                &&& seq_all_assigned(old(vs)@) ==> final(vs)@ == old(vs)@ && !changed
                    && sum_vals(xs@, seq_vals(old(vs)@)) <= bound
                &&& forall|vals: Seq<i64>| vals_in(vals, old(vs)@)
                    && sum_vals(xs@, vals) <= bound ==> vals_in(vals, final(vs)@)
            },
            Err(_) => forall|vals: Seq<i64>| vals_in(vals, old(vs)@)
                ==> sum_vals(xs@, vals) > bound,
        },
{
    let ghost pre = vs@;
    let ghost lows = seq_vals(pre);
    proof {
        assert forall|t: int| 0 <= t < xs@.len() implies
            0 <= lows[#[trigger] xs@[t] as int] <= MAX_VALUE by {
            pre[xs@[t] as int].lemma_bounds();
            assert(pre[xs@[t] as int].contains_spec(pre[xs@[t] as int].lower_spec() as int));
        }
        assert(sum_vals(xs@.take(0), lows) == 0);
    }
    let n = xs.len();
    let mut lbs: Vec<i64> = Vec::new();
    let mut s: i64 = 0;
    let mut t: usize = 0;
    while t < n
        invariant
            pre == old(vs)@,
            vs@ == pre,
            vs.inv(),
            n == xs@.len(),
            0 <= t <= n,
            ids_wf(xs@, pre.len() as int),
            0 <= bound <= MAX_VALUE,
            lows == seq_vals(pre),
            forall|q: int| 0 <= q < xs@.len() ==> 0 <= lows[#[trigger] xs@[q] as int] <= MAX_VALUE,
            lbs@.len() == t,
            forall|q: int| 0 <= q < t ==> lbs@[q] == lows[#[trigger] xs@[q] as int],
            s == sum_vals(xs@.take(t as int), lows),
            0 <= s <= bound,
        decreases n - t,
    {
        let x = xs[t];
        let lb = vs.domain_at(x).lower();
        proof {
            assert(lb == lows[xs@[t as int] as int]);
            lemma_sum_take_step(xs@, lows, t as int);
        }
        if s > bound - lb {
            proof {
                lemma_sum_suffix_ge(xs@, lows, t + 1);
                assert forall|vals: Seq<i64>| vals_in(vals, pre)
                    implies sum_vals(xs@, vals) > bound by {
                    assert forall|q: int| 0 <= q < xs@.len() implies
                        vals[#[trigger] xs@[q] as int] >= lows[xs@[q] as int] by {
                        pre[xs@[q] as int].lemma_bounds();
                        assert(pre[xs@[q] as int].contains_spec(vals[xs@[q] as int] as int));
                    }
                    lemma_sum_pointwise(xs@, vals, lows);
                }
            }
            return Err(());
        }
        s = s + lb;
        lbs.push(lb);
        t = t + 1;
    }
    proof {
        assert(xs@.take(n as int) =~= xs@);
    }
    let mut changed = false;
    let mut t2: usize = 0;
    while t2 < n
        invariant
            pre == old(vs)@,
            seq_inv(pre),
            vs.inv(),
            vs@.len() == pre.len(),
            n == xs@.len(),
            0 <= t2 <= n,
            ids_wf(xs@, pre.len() as int),
            0 <= bound <= MAX_VALUE,
            lows == seq_vals(pre),
            forall|q: int| 0 <= q < xs@.len() ==> 0 <= lows[#[trigger] xs@[q] as int] <= MAX_VALUE,
            lbs@.len() == n,
            forall|q: int| 0 <= q < n ==> lbs@[q] == lows[#[trigger] xs@[q] as int],
            s == sum_vals(xs@, lows),
            0 <= s <= bound,
            within(vs@, pre),
            !changed ==> vs@ == pre,
            seq_all_assigned(pre) ==> vs@ == pre && !changed,
            forall|q: int| 0 <= q < n
                ==> vs@[xs@[q] as int].contains_spec(lows[#[trigger] xs@[q] as int] as int),
            forall|vals: Seq<i64>| vals_in(vals, pre) && sum_vals(xs@, vals) <= bound
                ==> vals_in(vals, vs@),
        decreases n - t2,
    {
        let x = xs[t2];
        let lb = lbs[t2];
        let ub = bound - s + lb;
        if ub < MAX_VALUE {
            let rng = Domain::range(0, ub);
            let ghost mid = vs@;
            match vs.narrow(x, &rng) {
                Err(_) => {
                    proof {
                        assert(mid[xs@[t2 as int] as int].contains_spec(lb as int));
                        assert(rng.contains_spec(lb as int));
                        assert(false);
                    }
                    return Err(());
                },
                Ok(c) => {
                    proof {
                        let fin = vs@;
                        assert forall|i: int, v: int| 0 <= i < fin.len()
                            && #[trigger] fin[i].contains_spec(v)
                            implies pre[i].contains_spec(v) by {
                            if i == x as int {
                                assert(mid[i].contains_spec(v));
                            } else {
                                assert(fin[i] == mid[i]);
                            }
                        }
                        assert forall|q: int| 0 <= q < n implies
                            fin[xs@[q] as int].contains_spec(
                                lows[#[trigger] xs@[q] as int] as int) by {
                            if xs@[q] as int == x as int {
                                assert(lows[xs@[q] as int] == lb);
                                assert(mid[x as int].contains_spec(lb as int));
                                assert(rng.contains_spec(lb as int));
                            } else {
                                assert(fin[xs@[q] as int] == mid[xs@[q] as int]);
                            }
                        }
                        assert forall|vals: Seq<i64>| vals_in(vals, pre)
                            && sum_vals(xs@, vals) <= bound implies vals_in(vals, fin) by {
                            assert(vals_in(vals, mid));
                            assert forall|q: int| 0 <= q < xs@.len() implies
                                vals[#[trigger] xs@[q] as int] >= lows[xs@[q] as int] by {
                                pre[xs@[q] as int].lemma_bounds();
                                assert(pre[xs@[q] as int].contains_spec(
                                    vals[xs@[q] as int] as int));
                            }
                            lemma_sum_pointwise_except(xs@, vals, lows, t2 as int);
                            assert(vals[x as int] <= ub);
                            pre[x as int].lemma_bounds();
                            assert(pre[x as int].contains_spec(vals[x as int] as int));
                            assert(vals[x as int] >= 0);
                            assert(rng.contains_spec(vals[x as int] as int));
                            assert forall|i: int| 0 <= i < fin.len() implies
                                (#[trigger] fin[i]).contains_spec(vals[i] as int) by {
                                if i == x as int {
                                    assert(mid[i].contains_spec(vals[i] as int));
                                } else {
                                    assert(fin[i] == mid[i]);
                                }
                            }
                        }
                        if seq_all_assigned(pre) {
                            assert(mid == pre);
                            assert(mid[x as int].assigned_spec());
                            assert(!c);
                        }
                    }
                    changed = changed || c;
                },
            }
        }
        t2 = t2 + 1;
    }
    Ok(changed)
}

/// Propagate an all-different constraint: a pigeonhole check over the value
/// range, then pairwise disequalities.
#[verifier::rlimit(100)]
fn propagate_alldiff(vs: &mut VariableStore, xs: &Vec<usize>) -> (r: Result<bool, ()>)
    requires
        old(vs).inv(),
        ids_wf(xs@, old(vs)@.len() as int),
        xs@.len() <= MAX_VALUE,
    ensures
        final(vs).inv(),
        final(vs)@.len() == old(vs)@.len(),
        within(final(vs)@, old(vs)@),
        match r {
            Ok(changed) => {
                &&& !changed ==> final(vs)@ == old(vs)@
                &&& seq_all_assigned(old(vs)@) ==> final(vs)@ == old(vs)@ && !changed
                    && alldiff_sat(xs@, seq_vals(old(vs)@))
                &&& forall|vals: Seq<i64>| vals_in(vals, old(vs)@) && alldiff_sat(xs@, vals)
                    ==> vals_in(vals, final(vs)@)
            },
            Err(_) => forall|vals: Seq<i64>| vals_in(vals, old(vs)@)
                ==> !alldiff_sat(xs@, vals),
        },
{
    let ghost pre = vs@;
    let n = xs.len();
    if n >= 2 {
        let mut lo: i64 = MAX_VALUE;
        let mut hi: i64 = 0;
        let mut t: usize = 0;
        while t < n
            invariant
                pre == old(vs)@,
                vs@ == pre,
                vs.inv(),
                n == xs@.len(),
                0 <= t <= n,
                ids_wf(xs@, pre.len() as int),
                0 <= lo <= MAX_VALUE,
                0 <= hi <= MAX_VALUE,
                forall|q: int| 0 <= q < t ==> lo <= pre[#[trigger] xs@[q] as int].lower_spec()
                    && pre[xs@[q] as int].upper_spec() <= hi,
            decreases n - t,
        {
            let d = vs.domain_at(xs[t]);
            let l = d.lower();
            let u = d.upper();
            proof {
                pre[xs@[t as int] as int].lemma_bounds();
                assert(pre[xs@[t as int] as int].contains_spec(l as int));
                assert(pre[xs@[t as int] as int].contains_spec(u as int));
            }
            if l < lo {
                lo = l;
            }
            if u > hi {
                hi = u;
            }
            t = t + 1;
        }
        proof {
            pre[xs@[0] as int].lemma_bounds();
            assert(lo <= pre[xs@[0] as int].lower_spec());
            assert(pre[xs@[0] as int].lower_spec() <= pre[xs@[0] as int].upper_spec());
            assert(lo <= hi);
        }
        if hi - lo + 1 < n as i64 {
            proof {
                assert forall|vals: Seq<i64>| vals_in(vals, pre)
                    implies !alldiff_sat(xs@, vals) by {
                    if alldiff_sat(xs@, vals) {
                        let w = Seq::new(xs@.len(), |q: int| vals[xs@[q] as int]);
                        assert forall|q: int| 0 <= q < w.len() implies
                            lo <= #[trigger] w[q] <= hi by {
                            pre[xs@[q] as int].lemma_bounds();
                            assert(pre[xs@[q] as int].contains_spec(vals[xs@[q] as int] as int));
                        }
                        assert forall|a: int, b: int| 0 <= a < b < w.len()
                            implies w[a] != w[b] by {
                            assert(vals[xs@[a] as int] != vals[xs@[b] as int]);
                        }
                        lemma_pigeonhole(w, lo as int, hi as int);
                        assert(false);
                    }
                }
            }
            return Err(());
        }
    }
    let mut changed = false;
    let mut a: usize = 0;
    while a < n
        invariant
            pre == old(vs)@,
            vs.inv(),
            vs@.len() == pre.len(),
            n == xs@.len(),
            0 <= a <= n,
            ids_wf(xs@, pre.len() as int),
            within(vs@, pre),
            !changed ==> vs@ == pre,
            seq_all_assigned(pre) ==> vs@ == pre && !changed
                && (forall|p: int, q: int| 0 <= p < q < xs@.len() && p < a
                    ==> seq_vals(pre)[#[trigger] xs@[p] as int]
                        != seq_vals(pre)[#[trigger] xs@[q] as int]),
            forall|vals: Seq<i64>| vals_in(vals, pre) && alldiff_sat(xs@, vals)
                ==> vals_in(vals, vs@),
        decreases n - a,
    {
        let mut b: usize = a + 1;
        while b < n
            invariant
                pre == old(vs)@,
                vs.inv(),
                vs@.len() == pre.len(),
                n == xs@.len(),
                0 <= a < n,
                a < b <= n,
                ids_wf(xs@, pre.len() as int),
                within(vs@, pre),
                !changed ==> vs@ == pre,
                seq_all_assigned(pre) ==> vs@ == pre && !changed
                    && (forall|p: int, q: int| 0 <= p < q < xs@.len()
                        && (p < a || (p == a && q < b))
                        ==> seq_vals(pre)[#[trigger] xs@[p] as int]
                            != seq_vals(pre)[#[trigger] xs@[q] as int]),
                forall|vals: Seq<i64>| vals_in(vals, pre) && alldiff_sat(xs@, vals)
                    ==> vals_in(vals, vs@),
            decreases n - b,
        {
            let ghost mid = vs@;
            match propagate_neq(vs, xs[a], xs[b]) {
                Err(_) => {
                    proof {
                        assert forall|vals: Seq<i64>| vals_in(vals, pre)
                            implies !alldiff_sat(xs@, vals) by {
                            if alldiff_sat(xs@, vals) {
                                assert(vals_in(vals, mid));
                                assert(vals[xs@[a as int] as int] != vals[xs@[b as int] as int]);
                            }
                        }
                        assert forall|i: int, v: int| 0 <= i < vs@.len()
                            && #[trigger] vs@[i].contains_spec(v)
                            implies pre[i].contains_spec(v) by {
                            assert(mid[i].contains_spec(v));
                        }
                    }
                    return Err(());
                },
                Ok(c) => {
                    proof {
                        let fin = vs@;
                        assert forall|i: int, v: int| 0 <= i < fin.len()
                            && #[trigger] fin[i].contains_spec(v)
                            implies pre[i].contains_spec(v) by {
                            assert(mid[i].contains_spec(v));
                        }
                        assert forall|vals: Seq<i64>| vals_in(vals, pre)
                            && alldiff_sat(xs@, vals) implies vals_in(vals, fin) by {
                            assert(vals_in(vals, mid));
                            assert(vals[xs@[a as int] as int] != vals[xs@[b as int] as int]);
                        }
                        if seq_all_assigned(pre) {
                            assert(mid == pre);
                            assert(seq_vals(pre)[xs@[a as int] as int]
                                != seq_vals(pre)[xs@[b as int] as int]);
                            assert forall|p: int, q: int| 0 <= p < q < xs@.len()
                                && (p < a || (p == a && q < b + 1))
                                implies seq_vals(pre)[#[trigger] xs@[p] as int]
                                    != seq_vals(pre)[#[trigger] xs@[q] as int] by {
                                if p == a as int && q == b as int {
                                } else {
                                }
                            }
                        }
                    }
                    changed = changed || c;
                },
            }
            b = b + 1;
        }
        proof {
            if seq_all_assigned(pre) {
                assert forall|p: int, q: int| 0 <= p < q < xs@.len() && p < a + 1
                    implies seq_vals(pre)[#[trigger] xs@[p] as int]
                        != seq_vals(pre)[#[trigger] xs@[q] as int] by {
                    if p == a as int {
                        assert(p == a && q < n);
                    }
                }
            }
        }
        a = a + 1;
    }
    Ok(changed)
}

/// Can the primitive constraint still hold?  `false` only when no
/// assignment within the current domains satisfies it; under a fully
/// assigned store the answer is exact.
fn lit_feasible(vs: &VariableStore, l: &Lit) -> (r: bool)
    requires
        vs.inv(),
        lit_wf(*l, vs@.len() as int),
    ensures
        !r ==> forall|vals: Seq<i64>| vals_in(vals, vs@) ==> !lit_sat(*l, vals),
        r && seq_all_assigned(vs@) ==> lit_sat(*l, seq_vals(vs@)),
{
    match *l {
        Lit::Eq(x, y) => {
            if x == y {
                return true;
            }
            if vs.domain_at(x).is_assigned() && vs.domain_at(y).is_assigned() {
                let vx = vs.domain_at(x).lower();
                let vy = vs.domain_at(y).lower();
                proof {
                    vs@[x as int].lemma_assigned();
                    vs@[y as int].lemma_assigned();
                    if vx != vy {
                        assert forall|vals: Seq<i64>| vals_in(vals, vs@)
                            implies !lit_sat(*l, vals) by {
                            assert(vs@[x as int].contains_spec(vals[x as int] as int));
                            assert(vs@[y as int].contains_spec(vals[y as int] as int));
                        }
                    } else {
                        assert(seq_vals(vs@)[x as int] == vx);
                        assert(seq_vals(vs@)[y as int] == vy);
                    }
                }
                vx == vy
            } else {
                proof {
                    if !vs@[x as int].assigned_spec() || !vs@[y as int].assigned_spec() {
                        assert(!seq_all_assigned(vs@));
                    }
                }
                true
            }
        },
        Lit::Neq(x, y) => {
            if x == y {
                proof {
                    assert forall|vals: Seq<i64>| vals_in(vals, vs@)
                        implies !lit_sat(*l, vals) by {}
                }
                return false;
            }
            if vs.domain_at(x).is_assigned() && vs.domain_at(y).is_assigned() {
                let vx = vs.domain_at(x).lower();
                let vy = vs.domain_at(y).lower();
                proof {
                    vs@[x as int].lemma_assigned();
                    vs@[y as int].lemma_assigned();
                    if vx == vy {
                        assert forall|vals: Seq<i64>| vals_in(vals, vs@)
                            implies !lit_sat(*l, vals) by {
                            assert(vs@[x as int].contains_spec(vals[x as int] as int));
                            assert(vs@[y as int].contains_spec(vals[y as int] as int));
                        }
                    } else {
                        assert(seq_vals(vs@)[x as int] == vx);
                        assert(seq_vals(vs@)[y as int] == vy);
                    }
                }
                vx != vy
            } else {
                proof {
                    if !vs@[x as int].assigned_spec() || !vs@[y as int].assigned_spec() {
                        assert(!seq_all_assigned(vs@));
                    }
                }
                true
            }
        },
    }
}

/// Can the branch still hold?  Rules a branch out only when one of its
/// member constraints can no longer hold; exact once everything is assigned.
fn conj_feasible(vs: &VariableStore, c: &Conj) -> (r: bool)
    requires
        vs.inv(),
        conj_wf(c.lits@, vs@.len() as int),
    ensures
        !r ==> forall|vals: Seq<i64>| vals_in(vals, vs@) ==> !conj_sat(c.lits@, vals),
        r && seq_all_assigned(vs@) ==> conj_sat(c.lits@, seq_vals(vs@)),
{
    let n = c.lits.len();
    let mut k: usize = 0;
    while k < n
        invariant
            vs.inv(),
            n == c.lits@.len(),
            0 <= k <= n,
            conj_wf(c.lits@, vs@.len() as int),
            seq_all_assigned(vs@) ==> forall|t: int| 0 <= t < k
                ==> lit_sat(#[trigger] c.lits@[t], seq_vals(vs@)),
        decreases n - k,
    {
        if !lit_feasible(vs, &c.lits[k]) {
            proof {
                assert forall|vals: Seq<i64>| vals_in(vals, vs@)
                    implies !conj_sat(c.lits@, vals) by {
                    if conj_sat(c.lits@, vals) {
                        assert(lit_sat(c.lits@[k as int], vals));
                    }
                }
            }
            return false;
        }
        k = k + 1;
    }
    true
}

/// Propagate a disjunction: a branch is ruled out only when one of its
/// member constraints can no longer hold within the current domains.  If no
/// branch survives the disjunction fails; if exactly one does, it is applied
/// for real; otherwise nothing changes yet.
#[verifier::rlimit(100)]
fn propagate_disj(vs: &mut VariableStore, cs: &Vec<Conj>) -> (r: Result<bool, ()>)
    requires
        old(vs).inv(),
        forall|b: int| 0 <= b < cs@.len()
            ==> conj_wf((#[trigger] cs@[b]).lits@, old(vs)@.len() as int),
    ensures
        final(vs).inv(),
        final(vs)@.len() == old(vs)@.len(),
        within(final(vs)@, old(vs)@),
        match r {
            Ok(changed) => {
                &&& !changed ==> same_doms(final(vs)@, old(vs)@)
                &&& seq_all_assigned(old(vs)@) ==> same_doms(final(vs)@, old(vs)@) && !changed
                    && (exists|b: int| 0 <= b < cs@.len()
                        && conj_sat((#[trigger] cs@[b]).lits@, seq_vals(old(vs)@)))
                &&& forall|vals: Seq<i64>| vals_in(vals, old(vs)@)
                    && (exists|b: int| 0 <= b < cs@.len()
                        && conj_sat((#[trigger] cs@[b]).lits@, vals))
                    ==> vals_in(vals, final(vs)@)
            },
            Err(_) => forall|vals: Seq<i64>| vals_in(vals, old(vs)@)
                ==> !(exists|b: int| 0 <= b < cs@.len()
                    && conj_sat((#[trigger] cs@[b]).lits@, vals)),
        },
{
    let ghost pre = vs@;
    let m = cs.len();
    let mut feas: usize = 0;
    let mut last: usize = 0;
    let mut ci: usize = 0;
    while ci < m
        invariant
            pre == old(vs)@,
            vs@ == pre,
            vs.inv(),
            m == cs@.len(),
            0 <= ci <= m,
            forall|b: int| 0 <= b < cs@.len()
                ==> conj_wf((#[trigger] cs@[b]).lits@, pre.len() as int),
            feas <= ci,
            feas > 0 ==> last < ci,
            feas > 0 ==> (seq_all_assigned(pre)
                ==> conj_sat(cs@[last as int].lits@, seq_vals(pre))),
            feas == 0 ==> forall|b: int| 0 <= b < ci ==> bad_branch(cs@, b, pre),
            feas == 1 ==> forall|b: int| 0 <= b < ci && b != last as int
                ==> bad_branch(cs@, b, pre),
        decreases m - ci,
    {
        if conj_feasible(vs, &cs[ci]) {
            last = ci;
            feas = feas + 1;
        } else {
            proof {
                assert(bad_branch(cs@, ci as int, pre));
            }
        }
        ci = ci + 1;
    }
    if feas == 0 {
        proof {
            assert forall|vals: Seq<i64>| vals_in(vals, pre)
                implies !(exists|b: int| 0 <= b < cs@.len()
                    && conj_sat((#[trigger] cs@[b]).lits@, vals)) by {
                if exists|b: int| 0 <= b < cs@.len()
                    && conj_sat((#[trigger] cs@[b]).lits@, vals) {
                    let b = choose|b: int| 0 <= b < cs@.len()
                        && conj_sat((#[trigger] cs@[b]).lits@, vals);
                    assert(bad_branch(cs@, b, pre));
                }
            }
        }
        Err(())
    } else if feas == 1 {
        let rb = propagate_conj(vs, &cs[last].lits);
        match rb {
            Err(_) => {
                proof {
                    assert forall|vals: Seq<i64>| vals_in(vals, pre)
                        implies !(exists|b: int| 0 <= b < cs@.len()
                            && conj_sat((#[trigger] cs@[b]).lits@, vals)) by {
                        if exists|b: int| 0 <= b < cs@.len()
                            && conj_sat((#[trigger] cs@[b]).lits@, vals) {
                            let b = choose|b: int| 0 <= b < cs@.len()
                                && conj_sat((#[trigger] cs@[b]).lits@, vals);
                            if b != last as int {
                                assert(bad_branch(cs@, b, pre));
                            }
                        }
                    }
                }
                Err(())
            },
            Ok(c) => {
                proof {
                    let fin = vs@;
                    assert forall|vals: Seq<i64>| vals_in(vals, pre)
                        && (exists|b: int| 0 <= b < cs@.len()
                            && conj_sat((#[trigger] cs@[b]).lits@, vals))
                        implies vals_in(vals, fin) by {
                        let b = choose|b: int| 0 <= b < cs@.len()
                            && conj_sat((#[trigger] cs@[b]).lits@, vals);
                        if b != last as int {
                            assert(bad_branch(cs@, b, pre));
                        }
                    }
                    if !c {
                        assert(fin == pre);
                        lemma_same_doms_refl(fin);
                    }
                    if seq_all_assigned(pre) {
                        assert(fin == pre && !c);
                        lemma_same_doms_refl(fin);
                        assert(conj_sat(cs@[last as int].lits@, seq_vals(pre)));
                    }
                }
                Ok(c)
            },
        }
    } else {
        proof {
            lemma_same_doms_refl(vs@);
            if seq_all_assigned(pre) {
                assert(conj_sat(cs@[last as int].lits@, seq_vals(pre)));
            }
        }
        Ok(false)
    }
}


/// Run one propagator once.  On success reports whether any domain shrank;
/// on failure no assignment within the entry domains satisfies the
/// constraint.  Domains only ever narrow (monotonic narrowing), and a run
/// that reports no change has left every domain reading as before.  On a
/// fully assigned store, success means the assignment satisfies the
/// constraint.
pub fn propagate(vs: &mut VariableStore, p: &Prop) -> (r: Result<bool, ()>)
    requires
        old(vs).inv(),
        prop_wf(*p, old(vs)@.len() as int),
    ensures
        final(vs).inv(),
        final(vs)@.len() == old(vs)@.len(),
        within(final(vs)@, old(vs)@),
        match r {
            Ok(changed) => {
                &&& !changed ==> same_doms(final(vs)@, old(vs)@)
                &&& seq_all_assigned(old(vs)@) ==> same_doms(final(vs)@, old(vs)@) && !changed
                    && prop_sat(*p, seq_vals(old(vs)@))
                &&& forall|vals: Seq<i64>| vals_in(vals, old(vs)@) && prop_sat(*p, vals)
                    ==> vals_in(vals, final(vs)@)
            },
            Err(_) => forall|vals: Seq<i64>| vals_in(vals, old(vs)@) ==> !prop_sat(*p, vals),
        },
{
    proof {
        lemma_same_doms_refl(old(vs)@);
    }
    match p {
        Prop::Equal(x, y) => {
            let r = propagate_eq(vs, *x, *y);
            proof {
                if r is Ok {
                    lemma_same_doms_refl(vs@);
                }
            }
            r
        },
        Prop::NotEqual(x, y) => {
            let r = propagate_neq(vs, *x, *y);
            proof {
                if r is Ok {
                    lemma_same_doms_refl(vs@);
                }
            }
            r
        },
        Prop::BoundedSum(xs, k) => {
            let r = propagate_sum(vs, xs, *k);
            proof {
                if r is Ok {
                    lemma_same_doms_refl(vs@);
                }
            }
            r
        },
        Prop::AllDifferent(xs) => {
            let r = propagate_alldiff(vs, xs);
            proof {
                if r is Ok {
                    lemma_same_doms_refl(vs@);
                }
            }
            r
        },
        Prop::Conjunction(ls) => {
            let r = propagate_conj(vs, ls);
            proof {
                if r is Ok {
                    lemma_same_doms_refl(vs@);
                }
            }
            r
        },
        Prop::Disjunction(cs) => propagate_disj(vs, cs),
    }
}

/// Equal interval lists, reflexively.
proof fn lemma_same_doms_refl(a: Seq<Domain>)
    ensures
        same_doms(a, a),
{
}

} // verus!
