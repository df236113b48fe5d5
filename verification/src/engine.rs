use crate::domain::Domain;
use crate::props::{Prop, prop_wf, prop_sat, propagate};
use crate::store::{
    VariableStore, seq_inv, seq_all_assigned, seq_vals, vals_in, within, same_doms,
    lemma_same_doms,
};
use vstd::prelude::*;

verus! {

/// Holds the active propagator set of one problem.
pub struct ConstraintStore {
    props: Vec<Prop>,
}

impl View for ConstraintStore {
    type V = Seq<Prop>;

    closed spec fn view(&self) -> Seq<Prop> {
        self.props@
    }
}

impl ConstraintStore {
    /// Every propagator mentions only variables below `n`.
    pub open spec fn wf(&self, n: int) -> bool {
        forall|k: int| 0 <= k < self@.len() ==> prop_wf(#[trigger] self@[k], n)
    }

    pub fn new() -> (r: ConstraintStore)
        ensures
            r@.len() == 0,
    {
        ConstraintStore { props: Vec::new() }
    }

    pub fn add(&mut self, p: Prop)
        ensures
            final(self)@ == old(self)@.push(p),
    {
        self.props.push(p);
    }

    pub fn len(&self) -> (r: usize)
        ensures
            r == self@.len(),
    {
        self.props.len()
    }
}

/// Every propagator accepts the full assignment `vals`.
pub open spec fn all_sat(props: Seq<Prop>, vals: Seq<i64>) -> bool {
    forall|k: int| 0 <= k < props.len() ==> prop_sat(#[trigger] props[k], vals)
}

/// One branchable, restorable node of the search tree: a variable store
/// paired with a constraint store.
pub struct Space {
    pub vstore: VariableStore,
    pub cstore: ConstraintStore,
}

/// Between two states with identical views, every intermediate monotone
/// state reads the same: well-formed interval lists are canonical, so equal
/// value sets have equal views.
proof fn lemma_squeeze(base: Seq<Domain>, mid: Seq<Domain>, fin: Seq<Domain>)
    requires
        seq_inv(base),
        seq_inv(mid),
        within(mid, base),
        within(fin, mid),
        same_doms(fin, base),
    ensures
        same_doms(mid, base),
{
    assert forall|i: int| 0 <= i < mid.len() implies (#[trigger] mid[i])@ == base[i]@ by {
        assert forall|v: int| crate::domain::seq_contains(mid[i]@, v)
            == crate::domain::seq_contains(base[i]@, v) by {
            if crate::domain::seq_contains(mid[i]@, v) {
                assert(mid[i].contains_spec(v));
                assert(base[i].contains_spec(v));
            }
            if crate::domain::seq_contains(base[i]@, v) {
                assert(base[i].contains_spec(v));
                assert(fin[i]@ == base[i]@);
                assert(fin[i].contains_spec(v));
                assert(mid[i].contains_spec(v));
            }
        }
        crate::domain::lemma_canonical(mid[i]@, base[i]@);
    }
}

/// If the views changed across a monotone pass, some value was genuinely
/// removed from some domain.
proof fn lemma_pass_removed(base: Seq<Domain>, fin: Seq<Domain>)
    requires
        seq_inv(base),
        seq_inv(fin),
        within(fin, base),
        !same_doms(fin, base),
    ensures
        exists|ii: int, w: int| 0 <= ii < base.len()
            && #[trigger] base[ii].contains_spec(w) && !fin[ii].contains_spec(w),
{
    if !(exists|ii: int, w: int| 0 <= ii < base.len()
        && #[trigger] base[ii].contains_spec(w) && !fin[ii].contains_spec(w)) {
        assert forall|i: int| 0 <= i < fin.len() implies (#[trigger] fin[i])@ == base[i]@ by {
            assert forall|v: int| crate::domain::seq_contains(fin[i]@, v)
                == crate::domain::seq_contains(base[i]@, v) by {
                if crate::domain::seq_contains(fin[i]@, v) {
                    assert(fin[i].contains_spec(v));
                    assert(base[i].contains_spec(v));
                }
                if crate::domain::seq_contains(base[i]@, v) {
                    assert(base[i].contains_spec(v));
                    if !fin[i].contains_spec(v) {
                        assert(false);
                    }
                }
            }
            crate::domain::lemma_canonical(fin[i]@, base[i]@);
        }
        assert(same_doms(fin, base));
        assert(false);
    }
}

/// Run every propagator in passes until one full pass leaves every domain
/// reading as before (`Ok(true)`, a fixpoint), a propagator fails (`Err`),
/// or the pass budget runs out (`Ok(false)`).  At a fixpoint of a fully
/// assigned store the assignment satisfies every propagator; failure means
/// no assignment within the entry domains satisfies them all; and the budget
/// runs out only while passes are still removing values, so `Ok(false)` with
/// positive fuel certifies that some value was genuinely pruned.
#[verifier::rlimit(100)]
pub fn run_to_fixpoint(cs: &ConstraintStore, vs: &mut VariableStore, fuel: u64) -> (r: Result<
    bool,
    (),
>)
    requires
        old(vs).inv(),
        cs.wf(old(vs)@.len() as int),
    ensures
        final(vs).inv(),
        final(vs)@.len() == old(vs)@.len(),
        within(final(vs)@, old(vs)@),
        match r {
            Ok(fix) => {
                &&& (fix && seq_all_assigned(final(vs)@) ==> all_sat(
                    cs@,
                    seq_vals(final(vs)@),
                ))
                &&& (forall|vals: Seq<i64>| vals_in(vals, old(vs)@) && all_sat(cs@, vals)
                    ==> vals_in(vals, final(vs)@))
                &&& (!fix ==> fuel == 0 || (exists|ii: int, w: int| 0 <= ii < old(vs)@.len()
                    && #[trigger] old(vs)@[ii].contains_spec(w)
                    && !final(vs)@[ii].contains_spec(w)))
            },
            Err(_) => forall|vals: Seq<i64>| vals_in(vals, old(vs)@) && all_sat(cs@, vals)
                ==> false,
        },
{
    let ghost pre = vs@;
    let n = cs.len();
    let mut fuel_left = fuel;
    while fuel_left > 0
        invariant
            pre == old(vs)@,
            seq_inv(pre),
            vs.inv(),
            vs@.len() == pre.len(),
            n == cs@.len(),
            cs.wf(pre.len() as int),
            within(vs@, pre),
            forall|vals: Seq<i64>| vals_in(vals, pre) && all_sat(cs@, vals)
                ==> vals_in(vals, vs@),
            fuel_left < fuel ==> (exists|ii: int, w: int| 0 <= ii < pre.len()
                && #[trigger] pre[ii].contains_spec(w) && !vs@[ii].contains_spec(w)),
        decreases fuel_left,
    {
        fuel_left = fuel_left - 1;
        let snap = vs.snapshot();
        let ghost pass_start = vs@;
        let mut k: usize = 0;
        while k < n
            invariant
                pre == old(vs)@,
                seq_inv(pre),
                seq_inv(pass_start),
                same_doms(snap@, pass_start),
                vs.inv(),
                vs@.len() == pre.len(),
                pass_start.len() == pre.len(),
                n == cs@.len(),
                0 <= k <= n,
                cs.wf(pre.len() as int),
                within(vs@, pre),
                within(vs@, pass_start),
                within(pass_start, pre),
                forall|vals: Seq<i64>| vals_in(vals, pre) && all_sat(cs@, vals)
                    ==> vals_in(vals, vs@),
                fuel_left + 1 < fuel ==> (exists|ii: int, w: int| 0 <= ii < pre.len()
                    && #[trigger] pre[ii].contains_spec(w) && !vs@[ii].contains_spec(w)),
                forall|t: int| 0 <= t < k ==> (same_doms(vs@, pass_start)
                    ==> (seq_all_assigned(pass_start)
                        ==> prop_sat(#[trigger] cs@[t], seq_vals(pass_start)))),
            decreases n - k,
        {
            let ghost mid = vs@;
            let p = &cs.props[k];
            match propagate(vs, p) {
                Err(_) => {
                    proof {
                        assert forall|vals: Seq<i64>| vals_in(vals, pre) && all_sat(cs@, vals)
                            implies false by {
                            assert(vals_in(vals, mid));
                            assert(prop_sat(cs@[k as int], vals));
                        }
                    }
                    return Err(());
                },
                Ok(_) => {
                    proof {
                        let fin = vs@;
                        assert forall|i: int, v: int| 0 <= i < fin.len()
                            && #[trigger] fin[i].contains_spec(v)
                            implies pre[i].contains_spec(v) by {
                            assert(mid[i].contains_spec(v));
                        }
                        assert forall|i: int, v: int| 0 <= i < fin.len()
                            && #[trigger] fin[i].contains_spec(v)
                            implies pass_start[i].contains_spec(v) by {
                            assert(mid[i].contains_spec(v));
                        }
                        assert forall|vals: Seq<i64>| vals_in(vals, pre) && all_sat(cs@, vals)
                            implies vals_in(vals, fin) by {
                            assert(vals_in(vals, mid));
                            assert(prop_sat(cs@[k as int], vals));
                        }
                        if fuel_left + 1 < fuel {
                            let (ii, w) = choose|ii: int, w: int| 0 <= ii < pre.len()
                                && #[trigger] pre[ii].contains_spec(w)
                                && !mid[ii].contains_spec(w);
                            assert(!fin[ii].contains_spec(w));
                        }
                        assert forall|t: int| 0 <= t < k + 1 implies (same_doms(fin, pass_start)
                            ==> (seq_all_assigned(pass_start)
                                ==> prop_sat(#[trigger] cs@[t], seq_vals(pass_start)))) by {
                            if same_doms(fin, pass_start) && seq_all_assigned(pass_start) {
                                lemma_squeeze(pass_start, mid, fin);
                                lemma_same_doms(mid, pass_start);
                                assert(seq_all_assigned(mid));
                                if t == k as int {
                                    assert(prop_sat(cs@[t], seq_vals(mid)));
                                    assert(seq_vals(mid) == seq_vals(pass_start));
                                }
                            }
                        }
                    }
                },
            }
            k = k + 1;
        }
        if vs.views_equal(&snap) {
            proof {
                assert forall|i: int| 0 <= i < vs@.len() implies (#[trigger] vs@[i])@
                    == pass_start[i]@ by {
                    assert(vs@[i]@ == snap@[i]@);
                    assert(snap@[i]@ == pass_start[i]@);
                }
                assert(same_doms(vs@, pass_start));
                if seq_all_assigned(vs@) {
                    lemma_same_doms(vs@, pass_start);
                    assert(seq_all_assigned(pass_start));
                    assert forall|t: int| 0 <= t < cs@.len() implies prop_sat(
                        #[trigger] cs@[t],
                        seq_vals(vs@),
                    ) by {
                        assert(prop_sat(cs@[t], seq_vals(pass_start)));
                        assert(seq_vals(vs@) == seq_vals(pass_start));
                    }
                }
            }
            return Ok(true);
        }
        proof {
            assert(!same_doms(vs@, pass_start)) by {
                if same_doms(vs@, pass_start) {
                    assert forall|i: int| 0 <= i < vs@.len() implies (#[trigger] vs@[i])@
                        == snap@[i]@ by {
                        assert(vs@[i]@ == pass_start[i]@);
                        assert(snap@[i]@ == pass_start[i]@);
                    }
                    assert(same_doms(vs@, snap@));
                }
            }
            lemma_pass_removed(pass_start, vs@);
            let (ii, w) = choose|ii: int, w: int| 0 <= ii < pass_start.len()
                && #[trigger] pass_start[ii].contains_spec(w) && !vs@[ii].contains_spec(w);
            assert(pre[ii].contains_spec(w));
        }
    }
    Ok(false)
}

/// Every full assignment within the initial domains that satisfies all
/// propagators still lies within the live node `cur` or within some saved
/// alternative.  The backbone of the search's completeness argument.
#[verifier::opaque]
pub open spec fn solutions_covered(
    props: Seq<Prop>,
    init: Seq<Domain>,
    cur: Seq<Domain>,
    stack: Seq<VariableStore>,
) -> bool {
    forall|vals: Seq<i64>| vals_in(vals, init) && all_sat(props, vals) ==> vals_in(vals, cur)
        || (exists|s: int| 0 <= s < stack.len() && vals_in(vals, (#[trigger] stack[s])@))
}

/// At the root, the live node is the initial store and nothing is saved.
proof fn lemma_covered_root(props: Seq<Prop>, init: Seq<Domain>, stack: Seq<VariableStore>)
    requires
        stack.len() == 0,
    ensures
        solutions_covered(props, init, init, stack),
{
    reveal(solutions_covered);
}

/// Narrowing the live node without losing satisfying assignments keeps the
/// coverage.
proof fn lemma_covered_narrow(
    props: Seq<Prop>,
    init: Seq<Domain>,
    entry: Seq<Domain>,
    now: Seq<Domain>,
    stack: Seq<VariableStore>,
)
    requires
        solutions_covered(props, init, entry, stack),
        forall|vals: Seq<i64>| vals_in(vals, entry) && all_sat(props, vals)
            ==> vals_in(vals, now),
    ensures
        solutions_covered(props, init, now, stack),
{
    reveal(solutions_covered);
    assert forall|vals: Seq<i64>| vals_in(vals, init) && all_sat(props, vals)
        implies vals_in(vals, now) || (exists|s: int| 0 <= s < stack.len()
            && vals_in(vals, (#[trigger] stack[s])@)) by {
        if vals_in(vals, entry) {
        }
    }
}

/// A failed live node keeps no satisfying assignment, so coverage passes to
/// the saved alternatives: to the most recent one as the new live node, or,
/// with none left, to nowhere - the whole tree is exhausted.
proof fn lemma_covered_fail(
    props: Seq<Prop>,
    init: Seq<Domain>,
    entry: Seq<Domain>,
    stack0: Seq<VariableStore>,
)
    requires
        solutions_covered(props, init, entry, stack0),
        forall|vals: Seq<i64>| vals_in(vals, entry) && all_sat(props, vals) ==> false,
    ensures
        stack0.len() == 0 ==> forall|vals: Seq<i64>| vals_in(vals, init)
            && all_sat(props, vals) ==> false,
        stack0.len() > 0 ==> solutions_covered(props, init, stack0.last()@,
            stack0.drop_last()),
{
    reveal(solutions_covered);
    if stack0.len() > 0 {
        assert forall|vals: Seq<i64>| vals_in(vals, init) && all_sat(props, vals)
            implies vals_in(vals, stack0.last()@) || (exists|s: int|
                0 <= s < stack0.drop_last().len()
                && vals_in(vals, (#[trigger] stack0.drop_last()[s])@)) by {
            let s = choose|s: int| 0 <= s < stack0.len()
                && vals_in(vals, (#[trigger] stack0[s])@);
            if s == stack0.len() - 1 {
                assert(stack0.last() == stack0[s]);
            } else {
                assert(stack0.drop_last()[s] == stack0[s]);
                assert(vals_in(vals, (stack0.drop_last()[s])@));
            }
        }
    }
}

/// Branching splits the live node's assignments between the value-assigned
/// child and the saved complement, so coverage is kept.
proof fn lemma_covered_branch(
    props: Seq<Prop>,
    init: Seq<Domain>,
    entry: Seq<Domain>,
    before: Seq<Domain>,
    curn: Seq<Domain>,
    altn: Seq<Domain>,
    stack0: Seq<VariableStore>,
    stack1: Seq<VariableStore>,
    i: int,
    v: i64,
)
    requires
        solutions_covered(props, init, entry, stack0),
        forall|vals: Seq<i64>| vals_in(vals, entry) && all_sat(props, vals)
            ==> vals_in(vals, before),
        curn.len() == before.len(),
        altn.len() == before.len(),
        0 <= i < before.len(),
        forall|ii: int| 0 <= ii < before.len() && ii != i ==> #[trigger] curn[ii] == before[ii],
        forall|w: int| #![trigger curn[i].contains_spec(w)]
            curn[i].contains_spec(w) <==> before[i].contains_spec(w) && w == v,
        forall|ii: int| 0 <= ii < before.len() && ii != i
            ==> (#[trigger] altn[ii])@ == before[ii]@,
        forall|w: int| #![trigger altn[i].contains_spec(w)]
            altn[i].contains_spec(w) <==> before[i].contains_spec(w) && w != v,
        stack1.len() == stack0.len() + 1,
        forall|s: int| 0 <= s < stack0.len() ==> #[trigger] stack1[s] == stack0[s],
        stack1.last()@ == altn,
    ensures
        solutions_covered(props, init, curn, stack1),
{
    reveal(solutions_covered);
    assert forall|vals: Seq<i64>| vals_in(vals, init) && all_sat(props, vals)
        implies vals_in(vals, curn) || (exists|s: int| 0 <= s < stack1.len()
            && vals_in(vals, (#[trigger] stack1[s])@)) by {
        if vals_in(vals, entry) {
            assert(vals_in(vals, before));
            if vals[i] == v {
                assert forall|ii: int| 0 <= ii < curn.len() implies
                    (#[trigger] curn[ii]).contains_spec(vals[ii] as int) by {
                    if ii == i {
                        assert(before[i].contains_spec(vals[i] as int));
                    } else {
                        assert(curn[ii] == before[ii]);
                    }
                }
                assert(vals_in(vals, curn));
            } else {
                assert forall|ii: int| 0 <= ii < altn.len() implies
                    (#[trigger] altn[ii]).contains_spec(vals[ii] as int) by {
                    if ii == i {
                        assert(before[i].contains_spec(vals[i] as int));
                    } else {
                        assert(altn[ii]@ == before[ii]@);
                        assert(before[ii].contains_spec(vals[ii] as int));
                    }
                }
                assert(vals_in(vals, stack1.last()@));
                assert(stack1[stack1.len() - 1] == stack1.last());
            }
        } else {
            let s = choose|s: int| 0 <= s < stack0.len()
                && vals_in(vals, (#[trigger] stack0[s])@);
            assert(stack1[s] == stack0[s]);
            assert(vals_in(vals, stack1[s]@));
        }
    }
}

/// The terminal status of a search, carrying the solved store when one was
/// found.
pub enum SearchResult {
    Satisfiable(VariableStore),
    Unsatisfiable,
    EndOfSearch,
}

/// Pick an unassigned variable to branch on: smallest current domain first,
/// ties broken by allocation order.  `None` when every variable is assigned.
fn select_unassigned(vs: &VariableStore) -> (r: Option<usize>)
    requires
        vs.inv(),
    ensures
        match r {
            Option::None => seq_all_assigned(vs@),
            Option::Some(i) => (i as int) < vs@.len() && !vs@[i as int].assigned_spec(),
        },
{
    let mut have = false;
    let mut best: usize = 0;
    let mut best_size: i64 = 0;
    let mut i: usize = 0;
    while i < vs.len()
        invariant
            vs.inv(),
            0 <= i <= vs@.len(),
            !have ==> forall|q: int| 0 <= q < i ==> (#[trigger] vs@[q]).assigned_spec(),
            have ==> (best as int) < vs@.len() && !vs@[best as int].assigned_spec(),
        decreases vs@.len() - i,
    {
        let d = vs.domain_at(i);
        if !d.is_assigned() {
            let sz = d.approx_size();
            if !have || sz < best_size {
                have = true;
                best = i;
                best_size = sz;
            }
        }
        i = i + 1;
    }
    if have {
        Some(best)
    } else {
        None
    }
}

/// Depth-first branch-and-propagate search.  Propagates to a fixpoint; on
/// failure backtracks to the most recent untried alternative; on a fully
/// assigned fixpoint returns it as satisfiable.  Each alternative keeps the
/// branching variable's domain minus the tried value, so the two children
/// split the parent's assignments without loss, and an unsatisfiable answer
/// is a proof: no full assignment within the initial domains satisfies every
/// propagator.  The budget bounds the number of search steps; exhausting it
/// ends the search inconclusively.
#[verifier::rlimit(100)]
pub fn search(cs: &ConstraintStore, vs: VariableStore, budget: u64) -> (r: SearchResult)
    requires
        vs.inv(),
        cs.wf(vs@.len() as int),
    ensures
        match r {
            SearchResult::Satisfiable(f) => f.inv() && f@.len() == vs@.len()
                && seq_all_assigned(f@) && all_sat(cs@, seq_vals(f@)) && within(f@, vs@),
            SearchResult::Unsatisfiable => forall|vals: Seq<i64>| vals_in(vals, vs@)
                && all_sat(cs@, vals) ==> false,
            SearchResult::EndOfSearch => true,
        },
        budget == 0 ==> r is EndOfSearch,
{
    let ghost init = vs@;
    let mut cur = vs;
    let mut stack: Vec<VariableStore> = Vec::new();
    let mut budget_left = budget;
    proof {
        lemma_covered_root(cs@, init, stack@);
    }
    while budget_left > 0
        invariant
            budget_left <= budget,
            init == vs@,
            seq_inv(init),
            cs.wf(init.len() as int),
            cur.inv(),
            cur@.len() == init.len(),
            within(cur@, init),
            forall|s: int| 0 <= s < stack@.len() ==> (#[trigger] stack@[s]).inv()
                && stack@[s]@.len() == init.len() && within(stack@[s]@, init),
            solutions_covered(cs@, init, cur@, stack@),
        decreases budget_left,
    {
        budget_left = budget_left - 1;
        let ghost entry_cur = cur@;
        match run_to_fixpoint(cs, &mut cur, budget) {
            Err(_) => {
                let ghost stack0 = stack@;
                proof {
                    lemma_covered_fail(cs@, init, entry_cur, stack0);
                }
                match stack.pop() {
                    Some(s) => {
                        cur = s;
                    },
                    None => {
                        return SearchResult::Unsatisfiable;
                    },
                }
            },
            Ok(fix) => {
                proof {
                    lemma_covered_narrow(cs@, init, entry_cur, cur@, stack@);
                }
                if !fix {
                    return SearchResult::EndOfSearch;
                }
                match select_unassigned(&cur) {
                    None => {
                        return SearchResult::Satisfiable(cur);
                    },
                    Some(i) => {
                        let ghost before = cur@;
                        let v = cur.domain_at(i).lower();
                        proof {
                            before[i as int].lemma_two_values();
                            before[i as int].lemma_bounds();
                        }
                        let mut alt = cur.snapshot();
                        proof {
                            lemma_same_doms(alt@, before);
                        }
                        let nd = alt.domain_at(i).remove_value(v);
                        let ghost alt0 = alt@;
                        match alt.narrow(i, &nd) {
                            Err(_) => {
                                proof {
                                    let u = before[i as int].upper_spec();
                                    assert(before[i as int].contains_spec(u as int));
                                    assert(alt0[i as int]@ == before[i as int]@);
                                    assert(alt0[i as int].contains_spec(u as int));
                                    assert(nd.contains_spec(u as int));
                                    assert(false);
                                }
                                return SearchResult::EndOfSearch;
                            },
                            Ok(_) => {},
                        }
                        let ghost altn = alt@;
                        let ghost stack0 = stack@;
                        proof {
                            assert forall|ii: int, w: int| 0 <= ii < alt@.len()
                                && #[trigger] alt@[ii].contains_spec(w)
                                implies init[ii].contains_spec(w) by {
                                assert(alt0[ii].contains_spec(w));
                                assert(alt0[ii]@ == before[ii]@);
                                assert(before[ii].contains_spec(w));
                            }
                        }
                        stack.push(alt);
                        let sd = Domain::singleton(v);
                        let ghost cur0 = cur@;
                        match cur.narrow(i, &sd) {
                            Err(_) => {
                                proof {
                                    assert(cur0[i as int].contains_spec(v as int));
                                    assert(sd.contains_spec(v as int));
                                    assert(false);
                                }
                                return SearchResult::EndOfSearch;
                            },
                            Ok(_) => {},
                        }
                        proof {
                            assert forall|ii: int, w: int| 0 <= ii < cur@.len()
                                && #[trigger] cur@[ii].contains_spec(w)
                                implies init[ii].contains_spec(w) by {
                                assert(cur0[ii].contains_spec(w));
                            }
                            assert forall|w: int| #![trigger cur@[i as int].contains_spec(w)]
                                cur@[i as int].contains_spec(w)
                                <==> before[i as int].contains_spec(w) && w == v by {
                                assert(cur0[i as int] == before[i as int]);
                            }
                            assert forall|w: int| #![trigger altn[i as int].contains_spec(w)]
                                altn[i as int].contains_spec(w)
                                <==> before[i as int].contains_spec(w) && w != v by {
                                if altn[i as int].contains_spec(w) {
                                    assert(alt0[i as int].contains_spec(w));
                                    assert(nd.contains_spec(w));
                                    assert(alt0[i as int]@ == before[i as int]@);
                                }
                                if before[i as int].contains_spec(w) && w != v {
                                    assert(alt0[i as int]@ == before[i as int]@);
                                    assert(alt0[i as int].contains_spec(w));
                                    assert(nd.contains_spec(w));
                                }
                            }
                            assert forall|ii: int| 0 <= ii < before.len() && ii != i as int
                                implies (#[trigger] altn[ii])@ == before[ii]@ by {
                                assert(altn[ii] == alt0[ii]);
                            }
                            assert(stack@.last()@ == altn);
                            lemma_covered_branch(cs@, init, entry_cur, before, cur@, altn,
                                stack0, stack@, i as int, v);
                        }
                    },
                }
            },
        }
    }
    SearchResult::EndOfSearch
}

} // verus!
