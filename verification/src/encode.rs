use crate::domain::{Domain, MAX_VALUE};
use crate::engine::{ConstraintStore, Space};
use crate::props::{Conj, Lit, Prop, sum_vals};
use crate::store::{VariableStore, vals_in};
use vstd::prelude::*;

verus! {

/// A timetabling instance.  Group, lecturer and subject identities are the
/// indices into the three lists: per group an ordered list of
/// (subject, hours) requirements, per lecturer a maximum teachable hour
/// count, per subject the list of qualified lecturers.
pub struct Problem {
    pub group_requirements: Vec<Vec<(usize, usize)>>,
    pub lecturer_requirements: Vec<usize>,
    pub subject_requirements: Vec<Vec<usize>>,
}

impl Problem {
    pub fn new(
        group_requirements: Vec<Vec<(usize, usize)>>,
        lecturer_requirements: Vec<usize>,
        subject_requirements: Vec<Vec<usize>>,
    ) -> (r: Problem)
        ensures
            r.group_requirements == group_requirements,
            r.lecturer_requirements == lecturer_requirements,
            r.subject_requirements == subject_requirements,
    {
        Problem { group_requirements, lecturer_requirements, subject_requirements }
    }

    /// The group requirement lists as mathematical sequences.
    pub open spec fn reqs(&self) -> Seq<Seq<(usize, usize)>> {
        self.group_requirements@.map_values(|v: Vec<(usize, usize)>| v@)
    }

    /// The qualified-lecturer lists as mathematical sequences.
    pub open spec fn quals(&self) -> Seq<Seq<usize>> {
        self.subject_requirements@.map_values(|v: Vec<usize>| v@)
    }

    /// The lecturer hour caps.
    pub open spec fn caps(&self) -> Seq<usize> {
        self.lecturer_requirements@
    }
}

/// The (group, subject) pair of each session one requirement entry demands:
/// `hours` repetitions.
pub open spec fn entry_sessions(g: usize, s: usize, h: nat) -> Seq<(usize, usize)> {
    Seq::new(h, |i: int| (g, s))
}

/// The sessions demanded by one group's requirement list, in order.
pub open spec fn subs_sessions(g: usize, subs: Seq<(usize, usize)>) -> Seq<(usize, usize)>
    decreases subs.len(),
{
    if subs.len() == 0 {
        Seq::empty()
    } else {
        subs_sessions(g, subs.drop_last())
            + entry_sessions(g, subs.last().0, subs.last().1 as nat)
    }
}

/// All sessions of the instance, group by group, in encoding order.
pub open spec fn all_sessions(reqs: Seq<Seq<(usize, usize)>>) -> Seq<(usize, usize)>
    decreases reqs.len(),
{
    if reqs.len() == 0 {
        Seq::empty()
    } else {
        all_sessions(reqs.drop_last()) + subs_sessions((reqs.len() - 1) as usize, reqs.last())
    }
}

/// Every subject a group references exists and has a qualified lecturer.
pub open spec fn valid_problem(p: &Problem) -> bool {
    forall|g: int, e: int| 0 <= g < p.reqs().len() && 0 <= e < p.reqs()[g].len()
        ==> ((#[trigger] p.reqs()[g][e]).0 as int) < p.quals().len()
            && p.quals()[p.reqs()[g][e].0 as int].len() > 0
}

/// Machine-size limits on an instance.  Hour slots, caps and lecturer
/// identities must fit a domain value (`MAX_VALUE`).  The encoding makes one
/// variable index per session pair and per lecturer block, computed as
/// `2*sessions + lecturers*(sessions + 2)`; capping lecturers and sessions
/// at 10000 each keeps that product below 2^31, so the index arithmetic
/// cannot overflow even a 32-bit `usize`.  (The quadratic pairwise encoding
/// is unusable long before these counts are reached.)
pub open spec fn problem_limits(p: &Problem, hours: usize) -> bool {
    &&& 1 <= hours <= MAX_VALUE
    &&& p.caps().len() <= 10000
    &&& forall|l: int| 0 <= l < p.caps().len() ==> (#[trigger] p.caps()[l]) <= MAX_VALUE
    &&& forall|s: int, k: int| 0 <= s < p.quals().len() && 0 <= k < p.quals()[s].len()
        ==> (#[trigger] p.quals()[s][k]) <= MAX_VALUE
    &&& all_sessions(p.reqs()).len() <= 10000
}

/// Session `k`'s pair of variables holds exactly the domains the encoding
/// assigns: hours `[0, hours-1]` for the time variable `2k`, the subject's
/// qualified-lecturer set for the lecturer variable `2k + 1`.
pub open spec fn session_dom_ok(
    st: Seq<Domain>,
    meta: Seq<(usize, usize)>,
    hours: usize,
    quals: Seq<Seq<usize>>,
    k: int,
) -> bool {
    &&& 2 * k + 1 < st.len()
    &&& (meta[k].1 as int) < quals.len()
    &&& (forall|v: int| #![trigger st[2 * k].contains_spec(v)]
        st[2 * k].contains_spec(v) <==> 0 <= v < hours)
    &&& (forall|v: int| #![trigger st[2 * k + 1].contains_spec(v)]
        st[2 * k + 1].contains_spec(v) <==> (exists|q: int|
            0 <= q < quals[meta[k].1 as int].len()
            && #[trigger] quals[meta[k].1 as int][q] as int == v))
}

/// Every session's variables hold their encoded initial domains.
pub open spec fn session_doms(
    st: Seq<Domain>,
    meta: Seq<(usize, usize)>,
    hours: usize,
    quals: Seq<Seq<usize>>,
) -> bool {
    forall|k: int| 0 <= k < meta.len() ==> #[trigger] session_dom_ok(st, meta, hours, quals, k)
}

/// Growing the store beyond the session variables changes no session domain.
proof fn lemma_session_doms_grow(
    st0: Seq<Domain>,
    st1: Seq<Domain>,
    meta: Seq<(usize, usize)>,
    hours: usize,
    quals: Seq<Seq<usize>>,
)
    requires
        session_doms(st0, meta, hours, quals),
        st0.len() >= 2 * meta.len(),
        st1.len() >= st0.len(),
        forall|i: int| 0 <= i < st0.len() ==> #[trigger] st1[i] == st0[i],
    ensures
        session_doms(st1, meta, hours, quals),
{
    assert forall|k: int| 0 <= k < meta.len() implies #[trigger] session_dom_ok(
        st1, meta, hours, quals, k) by {
        assert(session_dom_ok(st0, meta, hours, quals, k));
        assert(st1[2 * k] == st0[2 * k]);
        assert(st1[2 * k + 1] == st0[2 * k + 1]);
        assert forall|v: int| #![trigger st1[2 * k].contains_spec(v)]
            st1[2 * k].contains_spec(v) <==> 0 <= v < hours by {
            assert(st0[2 * k].contains_spec(v) <==> 0 <= v < hours);
        }
        assert forall|v: int| #![trigger st1[2 * k + 1].contains_spec(v)]
            st1[2 * k + 1].contains_spec(v) <==> (exists|q: int|
                0 <= q < quals[meta[k].1 as int].len()
                && #[trigger] quals[meta[k].1 as int][q] as int == v) by {
            assert(st0[2 * k + 1].contains_spec(v) <==> (exists|q: int|
                0 <= q < quals[meta[k].1 as int].len()
                && #[trigger] quals[meta[k].1 as int][q] as int == v));
        }
    }
}

/// Allocating one session's pair of variables extends the session-domain
/// characterization by that session.
proof fn lemma_session_doms_push(
    st0: Seq<Domain>,
    meta0: Seq<(usize, usize)>,
    td: Domain,
    ld: Domain,
    g: usize,
    sbj: usize,
    hours: usize,
    quals: Seq<Seq<usize>>,
)
    requires
        session_doms(st0, meta0, hours, quals),
        st0.len() == 2 * meta0.len(),
        (sbj as int) < quals.len(),
        forall|v: int| #[trigger] td.contains_spec(v) <==> 0 <= v < hours,
        forall|v: int| #[trigger] ld.contains_spec(v) <==> (exists|q: int|
            0 <= q < quals[sbj as int].len() && #[trigger] quals[sbj as int][q] as int == v),
    ensures
        session_doms(st0.push(td).push(ld), meta0.push((g, sbj)), hours, quals),
{
    let st1 = st0.push(td).push(ld);
    let meta1 = meta0.push((g, sbj));
    assert forall|k: int| 0 <= k < meta1.len() implies #[trigger] session_dom_ok(
        st1, meta1, hours, quals, k) by {
        if k < meta0.len() {
            assert(session_dom_ok(st0, meta0, hours, quals, k));
            assert(meta1[k] == meta0[k]);
            assert(st1[2 * k] == st0[2 * k]);
            assert(st1[2 * k + 1] == st0[2 * k + 1]);
            assert forall|v: int| #![trigger st1[2 * k].contains_spec(v)]
                st1[2 * k].contains_spec(v) <==> 0 <= v < hours by {
                assert(st0[2 * k].contains_spec(v) <==> 0 <= v < hours);
            }
            assert forall|v: int| #![trigger st1[2 * k + 1].contains_spec(v)]
                st1[2 * k + 1].contains_spec(v) <==> (exists|q: int|
                    0 <= q < quals[meta1[k].1 as int].len()
                    && #[trigger] quals[meta1[k].1 as int][q] as int == v) by {
                assert(st0[2 * k + 1].contains_spec(v) <==> (exists|q: int|
                    0 <= q < quals[meta0[k].1 as int].len()
                    && #[trigger] quals[meta0[k].1 as int][q] as int == v));
            }
        } else {
            assert(meta1[k] == (g, sbj));
            assert(st1[2 * k] == td);
            assert(st1[2 * k + 1] == ld);
        }
    }
}

/// Variable index of lecturer `l`'s target constant in the encoded store.
pub open spec fn cl_id(sc: int, l: int) -> int {
    2 * sc + l * (sc + 2)
}

/// Variable index of the indicator tying session `k` to lecturer `l`.
pub open spec fn ind_id(sc: int, l: int, k: int) -> int {
    cl_id(sc, l) + 2 + k
}

/// Lecturer block `l` holds its encoded domains: the target constant `{l}`,
/// the unit constant `{1}`, and a 0/1 indicator per session.
pub open spec fn block_dom_ok(st: Seq<Domain>, sc: int, l: int) -> bool {
    &&& 0 <= cl_id(sc, l)
    &&& cl_id(sc, l) + 2 + sc <= st.len()
    &&& (forall|v: int| #![trigger st[cl_id(sc, l)].contains_spec(v)]
        st[cl_id(sc, l)].contains_spec(v) <==> v == l)
    &&& (forall|v: int| #![trigger st[cl_id(sc, l) + 1].contains_spec(v)]
        st[cl_id(sc, l) + 1].contains_spec(v) <==> v == 1)
    &&& (forall|k: int, v: int| #![trigger st[ind_id(sc, l, k)].contains_spec(v)]
        0 <= k < sc ==> (st[ind_id(sc, l, k)].contains_spec(v) <==> (v == 0 || v == 1)))
}

/// Every lecturer block holds its encoded domains.
pub open spec fn block_doms(st: Seq<Domain>, sc: int, lc: int) -> bool {
    forall|l: int| 0 <= l < lc ==> #[trigger] block_dom_ok(st, sc, l)
}

/// The indicator variable indices of lecturer `l`, in session order.
pub open spec fn ind_ids(sc: int, l: int) -> Seq<usize> {
    Seq::new(sc as nat, |k: int| ind_id(sc, l, k) as usize)
}

/// Does the assignment `vals` (one value per encoded variable) satisfy every
/// constraint the encoding emits, stated over the problem alone?  Cross-group
/// session pairs differ in hour or lecturer; sessions of one group take
/// pairwise distinct hours; each lecturer's indicators mark exactly that
/// lecturer's sessions; and each lecturer's indicator sum stays within their
/// cap.
pub open spec fn encoding_sat(p: &Problem, vals: Seq<i64>) -> bool {
    let ss = all_sessions(p.reqs());
    let sc = ss.len() as int;
    &&& (forall|a: int, b: int| 0 <= a < b < sc && (#[trigger] ss[a]).0 != (#[trigger] ss[b]).0
        ==> vals[2 * a] != vals[2 * b] || vals[2 * a + 1] != vals[2 * b + 1])
    &&& (forall|a: int, b: int| 0 <= a < b < sc && (#[trigger] ss[a]).0 == (#[trigger] ss[b]).0
        ==> vals[2 * a] != vals[2 * b])
    &&& (forall|l: int, k: int| 0 <= l < p.caps().len() && 0 <= k < sc
        ==> ((vals[2 * k + 1] == l && #[trigger] vals[ind_id(sc, l, k)] == 1)
            || (vals[2 * k + 1] != l && vals[ind_id(sc, l, k)] != 1)))
    &&& (forall|l: int| 0 <= l < p.caps().len()
        ==> sum_vals(ind_ids(sc, l), vals) <= #[trigger] p.caps()[l])
}

/// A strictly increasing list is increasing across any two positions.
proof fn lemma_strict_inc(xs: Seq<usize>, i: int, j: int)
    requires
        forall|q: int| 0 <= q && q + 1 < xs.len() ==> #[trigger] xs[q] < xs[q + 1],
        0 <= i < j < xs.len(),
    ensures
        xs[i] < xs[j],
    decreases j - i,
{
    if i + 1 < j {
        lemma_strict_inc(xs, i + 1, j);
    }
}

/// A cross-group hour-or-lecturer disjunction is satisfied by any assignment
/// meeting the encoding's semantic description.
proof fn lemma_cross_sat(p: &Problem, pr: Prop, a: int, b: int, vals: Seq<i64>)
    requires
        pr matches Prop::Disjunction(cs) && cs@.len() == 2
            && cs@[0].lits@.len() == 1
            && cs@[0].lits@[0] == Lit::Neq((2 * a) as usize, (2 * b) as usize)
            && cs@[1].lits@.len() == 1
            && cs@[1].lits@[0] == Lit::Neq((2 * a + 1) as usize, (2 * b + 1) as usize),
        0 <= a < b < all_sessions(p.reqs()).len(),
        all_sessions(p.reqs()).len() <= 10000,
        all_sessions(p.reqs())[a].0 != all_sessions(p.reqs())[b].0,
        encoding_sat(p, vals),
    ensures
        crate::props::prop_sat(pr, vals),
{
    let cs = pr->Disjunction_0;
    let sc = all_sessions(p.reqs()).len() as int;
    if vals[2 * a] != vals[2 * b] {
        assert(crate::props::lit_sat(cs@[0].lits@[0], vals));
        assert(crate::props::conj_sat(cs@[0].lits@, vals));
    } else {
        assert(vals[2 * a + 1] != vals[2 * b + 1]);
        assert(crate::props::lit_sat(cs@[1].lits@[0], vals));
        assert(crate::props::conj_sat(cs@[1].lits@, vals));
    }
}

/// A group's all-different-hours propagator is satisfied by any assignment
/// meeting the encoding's semantic description, given that its variable list
/// holds strictly increasing time-variable indices of that group's sessions.
proof fn lemma_group_sat(p: &Problem, pr: Prop, g: usize, vals: Seq<i64>)
    requires
        pr matches Prop::AllDifferent(xs)
            && (forall|q: int| 0 <= q < xs@.len() ==> (exists|t2: int|
                0 <= t2 < all_sessions(p.reqs()).len()
                && ((#[trigger] xs@[q]) as int) == 2 * t2
                && all_sessions(p.reqs())[t2].0 == g))
            && (forall|q: int| 0 <= q && q + 1 < xs@.len()
                ==> #[trigger] xs@[q] < xs@[q + 1]),
        all_sessions(p.reqs()).len() <= 10000,
        encoding_sat(p, vals),
    ensures
        crate::props::prop_sat(pr, vals),
{
    let xs = pr->AllDifferent_0;
    let ss = all_sessions(p.reqs());
    assert forall|i: int, j: int| 0 <= i < j < xs@.len() implies
        vals[#[trigger] xs@[i] as int] != vals[#[trigger] xs@[j] as int] by {
        lemma_strict_inc(xs@, i, j);
        let ti = choose|t2: int| 0 <= t2 < ss.len() && ((xs@[i]) as int) == 2 * t2
            && ss[t2].0 == g;
        let tj = choose|t2: int| 0 <= t2 < ss.len() && ((xs@[j]) as int) == 2 * t2
            && ss[t2].0 == g;
        assert(ti < tj);
        assert(vals[2 * ti] != vals[2 * tj]);
    }
    assert(crate::props::alldiff_sat(xs@, vals));
}

/// A reified-indicator disjunction is satisfied by any assignment meeting
/// the encoding's semantic description and lying within the encoded domains.
proof fn lemma_reif_sat(
    p: &Problem,
    pr: Prop,
    st: Seq<Domain>,
    l: int,
    k: int,
    vals: Seq<i64>,
)
    requires
        pr matches Prop::Disjunction(cs) && cs@.len() == 2
            && cs@[0].lits@.len() == 2
            && cs@[0].lits@[0] == Lit::Eq((2 * k + 1) as usize,
                cl_id(all_sessions(p.reqs()).len() as int, l) as usize)
            && cs@[0].lits@[1] == Lit::Eq(ind_id(all_sessions(p.reqs()).len() as int, l,
                k) as usize, (cl_id(all_sessions(p.reqs()).len() as int, l) + 1) as usize)
            && cs@[1].lits@.len() == 2
            && cs@[1].lits@[0] == Lit::Neq((2 * k + 1) as usize,
                cl_id(all_sessions(p.reqs()).len() as int, l) as usize)
            && cs@[1].lits@[1] == Lit::Neq(ind_id(all_sessions(p.reqs()).len() as int, l,
                k) as usize, (cl_id(all_sessions(p.reqs()).len() as int, l) + 1) as usize),
        0 <= l < p.caps().len(),
        p.caps().len() <= 10000,
        0 <= k < all_sessions(p.reqs()).len(),
        all_sessions(p.reqs()).len() <= 10000,
        block_dom_ok(st, all_sessions(p.reqs()).len() as int, l),
        vals_in(vals, st),
        encoding_sat(p, vals),
    ensures
        crate::props::prop_sat(pr, vals),
{
    let cs = pr->Disjunction_0;
    let sc = all_sessions(p.reqs()).len() as int;
    let cl = cl_id(sc, l);
    let iv = ind_id(sc, l, k);
    assert(0 <= cl && cl <= 2 * 10000 + 10000 * 10002) by (nonlinear_arith)
        requires
            0 <= l <= 10000,
            0 <= sc <= 10000,
            cl == 2 * sc + l * (sc + 2),
    ;
    assert((cl as usize) as int == cl);
    assert(((cl + 1) as usize) as int == cl + 1);
    assert(((cl + 2 + k) as usize) as int == iv);
    assert((iv as usize) as int == iv);
    assert(((2 * k + 1) as usize) as int == 2 * k + 1);
    assert(0 <= cl && cl + 2 + sc <= st.len());
    assert(st[cl].contains_spec(vals[cl] as int));
    assert(vals[cl] == l);
    assert(st[cl + 1].contains_spec(vals[cl + 1] as int));
    assert(vals[cl + 1] == 1);
    assert((vals[2 * k + 1] == l && vals[iv] == 1)
        || (vals[2 * k + 1] != l && vals[iv] != 1));
    if vals[2 * k + 1] == l {
        assert(crate::props::lit_sat(cs@[0].lits@[0], vals));
        assert(crate::props::lit_sat(cs@[0].lits@[1], vals));
        assert(crate::props::conj_sat(cs@[0].lits@, vals));
    } else {
        assert(crate::props::lit_sat(cs@[1].lits@[0], vals));
        assert(crate::props::lit_sat(cs@[1].lits@[1], vals));
        assert(crate::props::conj_sat(cs@[1].lits@, vals));
    }
}

/// A lecturer's capacity bound is satisfied by any assignment meeting the
/// encoding's semantic description, given that its variable list holds
/// exactly that lecturer's indicator indices.
proof fn lemma_cap_sat(p: &Problem, pr: Prop, l: int, vals: Seq<i64>)
    requires
        pr matches Prop::BoundedSum(xs, bound)
            && xs@.len() == all_sessions(p.reqs()).len()
            && (forall|q: int| 0 <= q < xs@.len() ==> ((#[trigger] xs@[q]) as int)
                == ind_id(all_sessions(p.reqs()).len() as int, l, q))
            && bound == p.caps()[l] as i64,
        0 <= l < p.caps().len(),
        p.caps().len() <= 10000,
        all_sessions(p.reqs()).len() <= 10000,
        forall|ll: int| 0 <= ll < p.caps().len() ==> (#[trigger] p.caps()[ll]) <= MAX_VALUE,
        encoding_sat(p, vals),
    ensures
        crate::props::prop_sat(pr, vals),
{
    let xs = pr->BoundedSum_0;
    let sc = all_sessions(p.reqs()).len() as int;
    assert forall|q: int| 0 <= q < sc implies #[trigger] ind_ids(sc, l)[q] == xs@[q] by {
        assert(0 <= ind_id(sc, l, q)) by (nonlinear_arith)
            requires
                0 <= l,
                0 <= sc,
                0 <= q,
        ;
        assert((xs@[q]) as int == ind_id(sc, l, q));
    }
    assert(ind_ids(sc, l) =~= xs@);
    assert(sum_vals(xs@, vals) <= p.caps()[l]);
}

/// The assignment `vals` lies within the encoding's initial domains, stated
/// over the problem alone: per session an in-range hour and a qualified
/// lecturer, per lecturer block the two constants and 0/1 indicators.
pub open spec fn encoded_vals_in(p: &Problem, hours: usize, vals: Seq<i64>) -> bool {
    let ss = all_sessions(p.reqs());
    let sc = ss.len() as int;
    let lc = p.caps().len() as int;
    &&& vals.len() == 2 * sc + lc * (sc + 2)
    &&& (forall|k: int| 0 <= k < sc ==> 0 <= #[trigger] vals[2 * k] < hours)
    &&& (forall|k: int| 0 <= k < sc ==> ((#[trigger] ss[k]).1 as int) < p.quals().len()
        && (exists|q: int| 0 <= q < p.quals()[ss[k].1 as int].len()
            && #[trigger] p.quals()[ss[k].1 as int][q] as int == vals[2 * k + 1] as int))
    &&& (forall|l: int| 0 <= l < lc ==> #[trigger] vals[cl_id(sc, l)] == l)
    &&& (forall|l: int| 0 <= l < lc ==> #[trigger] vals[cl_id(sc, l) + 1] == 1)
    &&& (forall|l: int, k: int| 0 <= l < lc && 0 <= k < sc
        ==> (#[trigger] vals[ind_id(sc, l, k)] == 0 || vals[ind_id(sc, l, k)] == 1))
}

/// An assignment within the encoding's initial domains, as described over
/// the problem, lies within the domains of the encoded store.
#[verifier::rlimit(100)]
pub proof fn lemma_encoded_vals_in(
    p: &Problem,
    hours: usize,
    st: Seq<Domain>,
    meta: Seq<(usize, usize)>,
    vals: Seq<i64>,
)
    requires
        problem_limits(p, hours),
        meta == all_sessions(p.reqs()),
        session_doms(st, meta, hours, p.quals()),
        block_doms(st, meta.len() as int, p.caps().len() as int),
        st.len() == 2 * meta.len() + p.caps().len() * (meta.len() + 2),
        encoded_vals_in(p, hours, vals),
    ensures
        vals_in(vals, st),
{
    let sc = meta.len() as int;
    let lc = p.caps().len() as int;
    assert(vals.len() == st.len());
    assert forall|i: int| 0 <= i < st.len() implies (#[trigger] st[i]).contains_spec(
        vals[i] as int) by {
        if i < 2 * sc {
            let k = i / 2;
            assert(i == 2 * k || i == 2 * k + 1);
            assert(0 <= k < sc);
            assert(session_dom_ok(st, meta, hours, p.quals(), k));
            if i == 2 * k {
                assert(0 <= vals[2 * k] < hours);
                assert(st[2 * k].contains_spec(vals[2 * k] as int));
            } else {
                let q = choose|q: int| 0 <= q < p.quals()[meta[k].1 as int].len()
                    && #[trigger] p.quals()[meta[k].1 as int][q] as int
                        == vals[2 * k + 1] as int;
                assert(st[2 * k + 1].contains_spec(vals[2 * k + 1] as int));
            }
        } else {
            let l = (i - 2 * sc) / (sc + 2);
            let off = (i - 2 * sc) % (sc + 2);
            assert(i - 2 * sc == (sc + 2) * l + off && 0 <= off < sc + 2) by (nonlinear_arith)
                requires
                    0 <= i - 2 * sc,
                    sc + 2 >= 2,
                    l == (i - 2 * sc) / (sc + 2),
                    off == (i - 2 * sc) % (sc + 2),
            ;
            assert(0 <= l) by (nonlinear_arith)
                requires
                    0 <= i - 2 * sc,
                    sc + 2 >= 2,
                    l == (i - 2 * sc) / (sc + 2),
            ;
            assert(l < lc) by (nonlinear_arith)
                requires
                    (sc + 2) * l <= i - 2 * sc,
                    i - 2 * sc < lc * (sc + 2),
                    sc + 2 >= 2,
                    0 <= l,
            ;
            assert(block_dom_ok(st, sc, l));
            assert(i == cl_id(sc, l) + off);
            if off == 0 {
                assert(vals[cl_id(sc, l)] == l);
                assert(st[cl_id(sc, l)].contains_spec(vals[cl_id(sc, l)] as int));
            } else if off == 1 {
                assert(vals[cl_id(sc, l) + 1] == 1);
                assert(st[cl_id(sc, l) + 1].contains_spec(vals[cl_id(sc, l) + 1] as int));
            } else {
                let k = off - 2;
                assert(0 <= k < sc);
                assert(i == ind_id(sc, l, k));
                assert(vals[ind_id(sc, l, k)] == 0 || vals[ind_id(sc, l, k)] == 1);
                assert(st[ind_id(sc, l, k)].contains_spec(vals[ind_id(sc, l, k)] as int));
            }
        }
    }
}

/// The encoded search space admits no assignment: no values within the
/// encoding's initial domains satisfy every emitted constraint.  This is
/// what an `Unsatisfiable` outcome certifies, stated over the problem alone.
pub open spec fn encoding_unsat(p: &Problem, hours: usize) -> bool {
    forall|vals: Seq<i64>| encoded_vals_in(p, hours, vals) && encoding_sat(p, vals) ==> false
}

/// How many cross-group pairs (a, b) with a < b the first `a` sessions make
/// with session `b`.
pub open spec fn cross_with(ss: Seq<(usize, usize)>, b: int, a: int) -> int
    decreases a,
{
    if a <= 0 {
        0
    } else {
        cross_with(ss, b, a - 1) + if ss[a - 1].0 != ss[b].0 {
            1int
        } else {
            0int
        }
    }
}

/// How many cross-group session pairs (a, b) with a < b < `b_end` there are.
pub open spec fn cross_count(ss: Seq<(usize, usize)>, b_end: int) -> int
    decreases b_end,
{
    if b_end <= 0 {
        0
    } else {
        cross_count(ss, b_end - 1) + cross_with(ss, b_end - 1, b_end - 1)
    }
}

/// One group extends the session list by its own block.
proof fn lemma_all_sessions_step(reqs: Seq<Seq<(usize, usize)>>, g: int)
    requires
        0 <= g < reqs.len(),
    ensures
        all_sessions(reqs.take(g + 1)) == all_sessions(reqs.take(g))
            + subs_sessions(g as usize, reqs[g]),
{
    let t = reqs.take(g + 1);
    assert(t.drop_last() =~= reqs.take(g));
    assert(t.last() == reqs[g]);
}

/// One requirement entry extends a group's session block.
proof fn lemma_subs_step(g: usize, subs: Seq<(usize, usize)>, e: int)
    requires
        0 <= e < subs.len(),
    ensures
        subs_sessions(g, subs.take(e + 1)) == subs_sessions(g, subs.take(e))
            + entry_sessions(g, subs[e].0, subs[e].1 as nat),
{
    let t = subs.take(e + 1);
    assert(t.drop_last() =~= subs.take(e));
    assert(t.last() == subs[e]);
}

/// Law: encoding is deterministic.  The variable count and the propagator
/// count of an encoded problem are fixed functions of the problem alone, so
/// encoding the same problem twice yields constraint graphs with equal
/// variable and propagator counts.  The premises are exactly what `encode`
/// ensures of each of the two encodings.
pub proof fn lemma_encoding_deterministic(
    p: &Problem,
    vars1: int,
    props1: int,
    vars2: int,
    props2: int,
)
    requires
        vars1 == 2 * all_sessions(p.reqs()).len()
            + p.caps().len() * (all_sessions(p.reqs()).len() + 2),
        props1 == cross_count(all_sessions(p.reqs()), all_sessions(p.reqs()).len() as int)
            + p.reqs().len() + p.caps().len() * (all_sessions(p.reqs()).len() + 1),
        vars2 == 2 * all_sessions(p.reqs()).len()
            + p.caps().len() * (all_sessions(p.reqs()).len() + 2),
        props2 == cross_count(all_sessions(p.reqs()), all_sessions(p.reqs()).len() as int)
            + p.reqs().len() + p.caps().len() * (all_sessions(p.reqs()).len() + 1),
    ensures
        vars1 == vars2,
        props1 == props2,
{
}

/// Check that every referenced subject exists and has a qualified lecturer.
fn validate(p: &Problem) -> (r: bool)
    ensures
        r == valid_problem(p),
{
    let mut g: usize = 0;
    while g < p.group_requirements.len()
        invariant
            0 <= g <= p.reqs().len(),
            forall|g2: int, e: int| 0 <= g2 < g && 0 <= e < p.reqs()[g2].len()
                ==> ((#[trigger] p.reqs()[g2][e]).0 as int) < p.quals().len()
                    && p.quals()[p.reqs()[g2][e].0 as int].len() > 0,
        decreases p.group_requirements.len() - g,
    {
        let subs = &p.group_requirements[g];
        proof {
            assert(p.reqs()[g as int] == subs@);
        }
        let mut e: usize = 0;
        while e < subs.len()
            invariant
                0 <= g < p.reqs().len(),
                subs@ == p.reqs()[g as int],
                0 <= e <= subs@.len(),
                forall|g2: int, e2: int| 0 <= g2 < g && 0 <= e2 < p.reqs()[g2].len()
                    ==> ((#[trigger] p.reqs()[g2][e2]).0 as int) < p.quals().len()
                        && p.quals()[p.reqs()[g2][e2].0 as int].len() > 0,
                forall|e2: int| 0 <= e2 < e
                    ==> ((#[trigger] p.reqs()[g as int][e2]).0 as int) < p.quals().len()
                        && p.quals()[p.reqs()[g as int][e2].0 as int].len() > 0,
            decreases subs@.len() - e,
        {
            let (s, _h) = subs[e];
            if s >= p.subject_requirements.len() {
                proof {
                    assert(p.reqs()[g as int][e as int].0 == s);
                }
                return false;
            }
            if p.subject_requirements[s].len() == 0 {
                proof {
                    assert(p.reqs()[g as int][e as int].0 == s);
                    assert(p.quals()[s as int] == p.subject_requirements@[s as int]@);
                }
                return false;
            }
            proof {
                assert(p.quals()[s as int] == p.subject_requirements@[s as int]@);
            }
            e = e + 1;
        }
        proof {
            assert forall|g2: int, e2: int| 0 <= g2 < g + 1 && 0 <= e2 < p.reqs()[g2].len()
                implies ((#[trigger] p.reqs()[g2][e2]).0 as int) < p.quals().len()
                    && p.quals()[p.reqs()[g2][e2].0 as int].len() > 0 by {
                if g2 == g as int {
                    assert(p.reqs()[g as int][e2].0 == subs@[e2].0);
                }
            }
        }
        g = g + 1;
    }
    true
}

/// Translate a problem into an initial search space, returning the space and
/// the (group, subject) pair of each session in encoding order.  Variables:
/// for session `k` a time variable `2k` over `[0, hours - 1]` and a lecturer
/// variable `2k + 1` over the subject's qualified set, then per lecturer two
/// constants and one 0/1 indicator per session.  Constraints: per cross-group
/// session pair, hour or lecturer differs; per group, all hours distinct; per
/// lecturer, indicators tied to its sessions by reification and bounded by
/// its cap.  Fails exactly on an invalid problem.
#[verifier::rlimit(100)]
pub fn encode(p: &Problem, hours: usize) -> (r: Result<(Space, Vec<(usize, usize)>), ()>)
    requires
        problem_limits(p, hours),
    ensures
        match r {
            Ok(out) => {
                &&& valid_problem(p)
                &&& out.1@ == all_sessions(p.reqs())
                &&& out.0.vstore.inv()
                &&& out.0.vstore@.len() == 2 * out.1@.len()
                    + p.caps().len() * (out.1@.len() + 2)
                &&& out.0.cstore.wf(out.0.vstore@.len() as int)
                &&& out.0.cstore@.len() == cross_count(out.1@, out.1@.len() as int)
                    + p.reqs().len() + p.caps().len() * (out.1@.len() + 1)
                &&& session_doms(out.0.vstore@, out.1@, hours, p.quals())
                &&& block_doms(out.0.vstore@, out.1@.len() as int, p.caps().len() as int)
                &&& (forall|vals: Seq<i64>| vals_in(vals, out.0.vstore@)
                    && encoding_sat(p, vals)
                    ==> crate::engine::all_sat(out.0.cstore@, vals))
            },
            Err(_) => !valid_problem(p),
        },
{
    if !validate(p) {
        return Err(());
    }
    let mut vstore = VariableStore::new();
    let mut meta: Vec<(usize, usize)> = Vec::new();
    let mut g: usize = 0;
    while g < p.group_requirements.len()
        invariant
            problem_limits(p, hours),
            valid_problem(p),
            0 <= g <= p.reqs().len(),
            meta@ == all_sessions(p.reqs().take(g as int)),
            vstore.inv(),
            vstore@.len() == 2 * meta@.len(),
            session_doms(vstore@, meta@, hours, p.quals()),
        decreases p.group_requirements.len() - g,
    {
        let subs = &p.group_requirements[g];
        proof {
            assert(p.reqs()[g as int] == subs@);
        }
        let mut e: usize = 0;
        while e < subs.len()
            invariant
                problem_limits(p, hours),
                valid_problem(p),
                0 <= g < p.reqs().len(),
                subs@ == p.reqs()[g as int],
                0 <= e <= subs@.len(),
                meta@ == all_sessions(p.reqs().take(g as int))
                    + subs_sessions(g, subs@.take(e as int)),
                vstore.inv(),
                vstore@.len() == 2 * meta@.len(),
                session_doms(vstore@, meta@, hours, p.quals()),
            decreases subs@.len() - e,
        {
            let (s, h) = subs[e];
            proof {
                assert(p.reqs()[g as int][e as int] == (s, h));
                assert((s as int) < p.quals().len() && p.quals()[s as int].len() > 0);
                assert(p.quals()[s as int] == p.subject_requirements@[s as int]@);
            }
            let qlist = &p.subject_requirements[s];
            let mut qvals: Vec<i64> = Vec::new();
            let mut q: usize = 0;
            while q < qlist.len()
                invariant
                    problem_limits(p, hours),
                    0 <= q <= qlist@.len(),
                    (s as int) < p.quals().len(),
                    qlist@ == p.quals()[s as int],
                    qvals@.len() == q,
                    forall|t: int| 0 <= t < q ==> #[trigger] qvals@[t] == qlist@[t] as i64,
                decreases qlist@.len() - q,
            {
                let lid = qlist[q];
                proof {
                    assert(p.quals()[s as int][q as int] <= MAX_VALUE);
                }
                qvals.push(lid as i64);
                q = q + 1;
            }
            proof {
                assert forall|t: int| 0 <= t < qvals@.len() implies
                    0 <= #[trigger] qvals@[t] <= MAX_VALUE by {
                    assert(qvals@[t] == qlist@[t] as i64);
                    assert(p.quals()[s as int][t] <= MAX_VALUE);
                }
            }
            let ghost qseq = p.quals()[s as int];
            let mut c: usize = 0;
            while c < h
                invariant
                    problem_limits(p, hours),
                    0 <= c <= h,
                    meta@ == all_sessions(p.reqs().take(g as int))
                        + subs_sessions(g, subs@.take(e as int))
                        + entry_sessions(g, s, c as nat),
                    vstore.inv(),
                    vstore@.len() == 2 * meta@.len(),
                    session_doms(vstore@, meta@, hours, p.quals()),
                    (s as int) < p.quals().len(),
                    qvals@.len() == p.quals()[s as int].len(),
                    forall|t: int| 0 <= t < qvals@.len()
                        ==> #[trigger] qvals@[t] == p.quals()[s as int][t] as i64,
                    qvals@.len() > 0,
                    forall|t: int| 0 <= t < qvals@.len()
                        ==> 0 <= #[trigger] qvals@[t] <= MAX_VALUE,
                decreases h - c,
            {
                let ghost st0 = vstore@;
                let ghost meta0 = meta@;
                let td = Domain::range(0, (hours - 1) as i64);
                let _tid = vstore.alloc_var(td);
                let ld = Domain::from_values(&qvals);
                let _lid = vstore.alloc_var(ld);
                meta.push((g, s));
                proof {
                    assert(entry_sessions(g, s, (c + 1) as nat)
                        =~= entry_sessions(g, s, c as nat).push((g, s)));
                    assert(meta@ =~= all_sessions(p.reqs().take(g as int))
                        + subs_sessions(g, subs@.take(e as int))
                        + entry_sessions(g, s, (c + 1) as nat));
                    assert forall|v: int| #[trigger] ld.contains_spec(v) <==> (exists|q: int|
                        0 <= q < p.quals()[s as int].len()
                        && #[trigger] p.quals()[s as int][q] as int == v) by {
                        if ld.contains_spec(v) {
                            let q = choose|q: int| 0 <= q < qvals@.len()
                                && #[trigger] qvals@[q] as int == v;
                            assert(qvals@[q] == p.quals()[s as int][q] as i64);
                            assert(p.quals()[s as int][q] as int == v);
                        }
                        if exists|q: int| 0 <= q < p.quals()[s as int].len()
                            && #[trigger] p.quals()[s as int][q] as int == v {
                            let q = choose|q: int| 0 <= q < p.quals()[s as int].len()
                                && #[trigger] p.quals()[s as int][q] as int == v;
                            assert(qvals@[q] == p.quals()[s as int][q] as i64);
                            assert(qvals@[q] as int == v);
                            assert(ld.contains_spec(v));
                        }
                    }
                    lemma_session_doms_push(st0, meta0, td, ld, g, s, hours, p.quals());
                    assert(vstore@ == st0.push(td).push(ld));
                    assert(meta@ == meta0.push((g, s)));
                }
                c = c + 1;
            }
            proof {
                lemma_subs_step(g, subs@, e as int);
                assert(entry_sessions(g, s, h as nat)
                    == entry_sessions(g, subs@[e as int].0, subs@[e as int].1 as nat));
                assert(meta@ =~= all_sessions(p.reqs().take(g as int))
                    + subs_sessions(g, subs@.take(e + 1)));
            }
            e = e + 1;
        }
        proof {
            lemma_all_sessions_step(p.reqs(), g as int);
            assert(subs@.take(subs@.len() as int) =~= subs@);
            assert(meta@ =~= all_sessions(p.reqs().take(g + 1)));
        }
        g = g + 1;
    }
    proof {
        assert(p.reqs().take(p.reqs().len() as int) =~= p.reqs());
        assert(meta@ == all_sessions(p.reqs()));
        assert(meta@.len() <= 10000);
    }
    let sc = meta.len();
    let lc = p.lecturer_requirements.len();
    let ghost sess_st = vstore@;
    // per-lecturer constants and indicators
    let mut l: usize = 0;
    while l < lc
        invariant
            problem_limits(p, hours),
            lc == p.caps().len(),
            sc == meta@.len(),
            sc <= 10000,
            lc <= 10000,
            0 <= l <= lc,
            vstore.inv(),
            vstore@.len() == 2 * sc + l * (sc + 2),
            sess_st.len() == 2 * sc,
            forall|i: int| 0 <= i < 2 * sc ==> #[trigger] vstore@[i] == sess_st[i],
            session_doms(sess_st, meta@, hours, p.quals()),
            block_doms(vstore@, sc as int, l as int),
        decreases lc - l,
    {
        let ghost blocks0 = vstore@;
        let cl = Domain::singleton(l as i64);
        let cl_pos = vstore.alloc_var(cl);
        let c1 = Domain::singleton(1);
        let c1_pos = vstore.alloc_var(c1);
        proof {
            assert(cl_pos as int == cl_id(sc as int, l as int));
            assert(c1_pos as int == cl_id(sc as int, l as int) + 1);
        }
        let mut k: usize = 0;
        while k < sc
            invariant
                0 <= k <= sc,
                vstore.inv(),
                vstore@.len() == 2 * sc + l * (sc + 2) + 2 + k,
                sc <= 10000,
                lc <= 10000,
                l < lc,
                sess_st.len() == 2 * sc,
                forall|i: int| 0 <= i < 2 * sc ==> #[trigger] vstore@[i] == sess_st[i],
                blocks0.len() == 2 * sc + l * (sc + 2),
                forall|i: int| 0 <= i < blocks0.len() ==> #[trigger] vstore@[i] == blocks0[i],
                block_doms(blocks0, sc as int, l as int),
                cl_pos as int == cl_id(sc as int, l as int),
                forall|v: int| #![trigger vstore@[cl_id(sc as int, l as int)].contains_spec(v)]
                    vstore@[cl_id(sc as int, l as int)].contains_spec(v) <==> v == l,
                forall|v: int|
                    #![trigger vstore@[cl_id(sc as int, l as int) + 1].contains_spec(v)]
                    vstore@[cl_id(sc as int, l as int) + 1].contains_spec(v) <==> v == 1,
                forall|k2: int, v: int|
                    #![trigger vstore@[ind_id(sc as int, l as int, k2)].contains_spec(v)]
                    0 <= k2 < k ==> (vstore@[ind_id(sc as int, l as int, k2)].contains_spec(v)
                        <==> (v == 0 || v == 1)),
        decreases sc - k,
        {
            let ind = Domain::range(0, 1);
            let ind_pos = vstore.alloc_var(ind);
            proof {
                assert(ind_pos as int == ind_id(sc as int, l as int, k as int));
            }
            k = k + 1;
        }
        proof {
            assert((l + 1) * (sc + 2) == l * (sc + 2) + sc + 2) by (nonlinear_arith);
            assert(block_dom_ok(vstore@, sc as int, l as int));
            assert forall|l2: int| 0 <= l2 < l + 1 implies #[trigger] block_dom_ok(
                vstore@, sc as int, l2) by {
                if l2 < l {
                    assert(block_dom_ok(blocks0, sc as int, l2));
                    assert((l2 + 1) * (sc + 2) <= l * (sc + 2)) by (nonlinear_arith)
                        requires
                            0 <= l2 + 1 <= l,
                            0 <= sc,
                    ;
                    assert(cl_id(sc as int, l2) + 2 + sc <= blocks0.len());
                    assert forall|v: int|
                        #![trigger vstore@[cl_id(sc as int, l2)].contains_spec(v)]
                        vstore@[cl_id(sc as int, l2)].contains_spec(v) <==> v == l2 by {
                        assert(vstore@[cl_id(sc as int, l2)] == blocks0[cl_id(sc as int, l2)]);
                    }
                    assert forall|v: int|
                        #![trigger vstore@[cl_id(sc as int, l2) + 1].contains_spec(v)]
                        vstore@[cl_id(sc as int, l2) + 1].contains_spec(v) <==> v == 1 by {
                        assert(vstore@[cl_id(sc as int, l2) + 1]
                            == blocks0[cl_id(sc as int, l2) + 1]);
                    }
                    assert forall|k2: int, v: int|
                        #![trigger vstore@[ind_id(sc as int, l2, k2)].contains_spec(v)]
                        0 <= k2 < sc implies (vstore@[ind_id(sc as int, l2, k2)].contains_spec(v)
                            <==> (v == 0 || v == 1)) by {
                        assert(vstore@[ind_id(sc as int, l2, k2)]
                            == blocks0[ind_id(sc as int, l2, k2)]);
                    }
                }
            }
        }
        l = l + 1;
    }
    let nvars = vstore.len();
    proof {
        assert(nvars == 2 * sc + lc * (sc + 2));
        lemma_session_doms_grow(sess_st, vstore@, meta@, hours, p.quals());
    }
    // constraints
    let mut cstore = ConstraintStore::new();
    // cross-group pairs: hour differs or lecturer differs
    let mut b: usize = 0;
    while b < sc
        invariant
            sc == meta@.len(),
            sc <= 10000,
            lc == p.caps().len(),
            lc <= 10000,
            0 <= b <= sc,
            nvars == 2 * sc + lc * (sc + 2),
            problem_limits(p, hours),
            meta@ == all_sessions(p.reqs()),
            vstore@.len() == nvars,
            block_doms(vstore@, sc as int, lc as int),
            cstore.wf(nvars as int),
            cstore@.len() == cross_count(meta@, b as int),
            forall|vals: Seq<i64>| vals_in(vals, vstore@) && encoding_sat(p, vals)
                ==> crate::engine::all_sat(cstore@, vals),
        decreases sc - b,
    {
        let mut a: usize = 0;
        while a < b
            invariant
                sc == meta@.len(),
                sc <= 10000,
                lc == p.caps().len(),
                lc <= 10000,
                0 <= a <= b < sc,
                nvars == 2 * sc + lc * (sc + 2),
                problem_limits(p, hours),
                meta@ == all_sessions(p.reqs()),
                vstore@.len() == nvars,
                block_doms(vstore@, sc as int, lc as int),
                cstore.wf(nvars as int),
                cstore@.len() == cross_count(meta@, b as int) + cross_with(meta@, b as int, a as int),
                forall|vals: Seq<i64>| vals_in(vals, vstore@) && encoding_sat(p, vals)
                        ==> crate::engine::all_sat(cstore@, vals),
            decreases b - a,
        {
            let ga = meta[a].0;
            let gb = meta[b].0;
            if ga != gb {
                let mut lits1: Vec<Lit> = Vec::new();
                lits1.push(Lit::Neq(2 * a, 2 * b));
                let mut lits2: Vec<Lit> = Vec::new();
                lits2.push(Lit::Neq(2 * a + 1, 2 * b + 1));
                let mut branches: Vec<Conj> = Vec::new();
                branches.push(Conj { lits: lits1 });
                branches.push(Conj { lits: lits2 });
                let pr = Prop::Disjunction(branches);
                let ghost props0 = cstore@;
                proof {
                    assert(crate::props::prop_wf(pr, nvars as int));
                }
                cstore.add(pr);
                proof {
                    assert forall|vals: Seq<i64>| vals_in(vals, vstore@)
                        && encoding_sat(p, vals)
                        implies crate::engine::all_sat(cstore@, vals) by {
                        assert(crate::engine::all_sat(props0, vals));
                        lemma_cross_sat(p, pr, a as int, b as int, vals);
                        assert forall|t: int| 0 <= t < cstore@.len() implies
                            crate::props::prop_sat(#[trigger] cstore@[t], vals) by {
                            if t < props0.len() {
                                assert(cstore@[t] == props0[t]);
                            } else {
                                assert(cstore@[t] == pr);
                            }
                        }
                    }
                }
            }
            a = a + 1;
        }
        b = b + 1;
    }
    proof {
        assert(cstore@.len() == cross_count(meta@, sc as int));
    }
    // per group: all hours distinct
    let mut g2: usize = 0;
    let mut k2: usize = 0;
    let ghost cross_total = cstore@.len() as int;
    while g2 < p.group_requirements.len()
        invariant
            sc == meta@.len(),
            sc <= 10000,
            lc == p.caps().len(),
            lc <= 10000,
            0 <= g2 <= p.reqs().len(),
            0 <= k2 <= sc,
            nvars == 2 * sc + lc * (sc + 2),
            problem_limits(p, hours),
            meta@ == all_sessions(p.reqs()),
            vstore@.len() == nvars,
            block_doms(vstore@, sc as int, lc as int),
            cstore.wf(nvars as int),
            cross_total == cross_count(meta@, sc as int),
            cstore@.len() == cross_total + g2,
            forall|vals: Seq<i64>| vals_in(vals, vstore@) && encoding_sat(p, vals)
                ==> crate::engine::all_sat(cstore@, vals),
        decreases p.group_requirements.len() - g2,
    {
        // collect the time variables of the sessions of group g2
        let mut times: Vec<usize> = Vec::new();
        let mut t: usize = 0;
        while t < sc
            invariant
                sc == meta@.len(),
                sc <= 10000,
                0 <= t <= sc,
                nvars == 2 * sc + lc * (sc + 2),
                times@.len() <= t,
                forall|q: int| 0 <= q < times@.len() ==> (#[trigger] times@[q] as int) < nvars,
                forall|q: int| 0 <= q < times@.len() ==> (exists|t2: int| 0 <= t2 < sc
                    && ((#[trigger] times@[q]) as int) == 2 * t2 && meta@[t2].0 == g2),
                forall|q: int| 0 <= q && q + 1 < times@.len()
                    ==> #[trigger] times@[q] < times@[q + 1],
                times@.len() > 0 ==> (times@.last() as int) < 2 * t,
            decreases sc - t,
        {
            if meta[t].0 == g2 {
                times.push(2 * t);
                proof {
                    assert((times@.last() as int) == 2 * t);
                }
            }
            t = t + 1;
        }
        let pr = Prop::AllDifferent(times);
        let ghost props0 = cstore@;
        proof {
            assert(crate::props::prop_wf(pr, nvars as int));
        }
        cstore.add(pr);
        proof {
            assert forall|vals: Seq<i64>| vals_in(vals, vstore@) && encoding_sat(p, vals)
                implies crate::engine::all_sat(cstore@, vals) by {
                assert(crate::engine::all_sat(props0, vals));
                lemma_group_sat(p, pr, g2, vals);
                assert forall|t3: int| 0 <= t3 < cstore@.len() implies
                    crate::props::prop_sat(#[trigger] cstore@[t3], vals) by {
                    if t3 < props0.len() {
                        assert(cstore@[t3] == props0[t3]);
                    } else {
                        assert(cstore@[t3] == pr);
                    }
                }
            }
        }
        g2 = g2 + 1;
    }
    // per lecturer: reified indicators and the capacity bound
    let mut l2: usize = 0;
    while l2 < lc
        invariant
            sc == meta@.len(),
            sc <= 10000,
            lc == p.caps().len(),
            lc <= 10000,
            problem_limits(p, hours),
            0 <= l2 <= lc,
            nvars == 2 * sc + lc * (sc + 2),
            meta@ == all_sessions(p.reqs()),
            vstore@.len() == nvars,
            block_doms(vstore@, sc as int, lc as int),
            cstore.wf(nvars as int),
            cross_total == cross_count(meta@, sc as int),
            cstore@.len() == cross_total + p.reqs().len() + l2 * (sc + 1),
            forall|vals: Seq<i64>| vals_in(vals, vstore@) && encoding_sat(p, vals)
                ==> crate::engine::all_sat(cstore@, vals),
        decreases lc - l2,
    {
        proof {
            assert(l2 * (sc + 2) <= 10000 * 10002) by (nonlinear_arith)
                requires
                    0 <= l2 <= 10000,
                    0 <= sc <= 10000,
            ;
            assert((l2 + 1) * (sc + 2) == l2 * (sc + 2) + sc + 2) by (nonlinear_arith);
            assert(l2 + 1 <= lc);
            assert((l2 + 1) * (sc + 2) <= lc * (sc + 2)) by (nonlinear_arith)
                requires
                    0 <= l2 + 1 <= lc,
                    0 <= sc,
            ;
        }
        let base = 2 * sc + l2 * (sc + 2);
        let cl_v = base;
        let c1_v = base + 1;
        let mut inds: Vec<usize> = Vec::new();
        let mut k3: usize = 0;
        while k3 < sc
            invariant
                sc == meta@.len(),
                sc <= 10000,
                lc == p.caps().len(),
                lc <= 10000,
                problem_limits(p, hours),
                0 <= l2 < lc,
                0 <= k3 <= sc,
                nvars == 2 * sc + lc * (sc + 2),
                meta@ == all_sessions(p.reqs()),
                vstore@.len() == nvars,
                block_doms(vstore@, sc as int, lc as int),
                base == 2 * sc + l2 * (sc + 2),
                base + 2 + sc <= nvars,
                cl_v == base,
                c1_v == base + 1,
                cstore.wf(nvars as int),
                cstore@.len() == cross_total + p.reqs().len() + l2 * (sc + 1) + k3,
                cross_total == cross_count(meta@, sc as int),
                inds@.len() == k3,
                forall|q: int| 0 <= q < inds@.len() ==> (#[trigger] inds@[q] as int) < nvars,
                forall|q: int| 0 <= q < inds@.len() ==> ((#[trigger] inds@[q]) as int)
                    == ind_id(sc as int, l2 as int, q),
                forall|vals: Seq<i64>| vals_in(vals, vstore@) && encoding_sat(p, vals)
                    ==> crate::engine::all_sat(cstore@, vals),
            decreases sc - k3,
        {
            let ind_v = base + 2 + k3;
            let mut l_yes: Vec<Lit> = Vec::new();
            l_yes.push(Lit::Eq(2 * k3 + 1, cl_v));
            l_yes.push(Lit::Eq(ind_v, c1_v));
            let mut l_no: Vec<Lit> = Vec::new();
            l_no.push(Lit::Neq(2 * k3 + 1, cl_v));
            l_no.push(Lit::Neq(ind_v, c1_v));
            let mut branches: Vec<Conj> = Vec::new();
            branches.push(Conj { lits: l_yes });
            branches.push(Conj { lits: l_no });
            let pr = Prop::Disjunction(branches);
            let ghost props0 = cstore@;
            proof {
                assert(ind_v < nvars);
                assert(crate::props::prop_wf(pr, nvars as int));
            }
            cstore.add(pr);
            inds.push(ind_v);
            proof {
                assert(cl_v as int == cl_id(sc as int, l2 as int));
                assert(ind_v as int == ind_id(sc as int, l2 as int, k3 as int));
                assert forall|vals: Seq<i64>| vals_in(vals, vstore@)
                    && encoding_sat(p, vals)
                    implies crate::engine::all_sat(cstore@, vals) by {
                    assert(crate::engine::all_sat(props0, vals));
                    assert(block_dom_ok(vstore@, sc as int, l2 as int));
                    lemma_reif_sat(p, pr, vstore@, l2 as int, k3 as int, vals);
                    assert forall|t3: int| 0 <= t3 < cstore@.len() implies
                        crate::props::prop_sat(#[trigger] cstore@[t3], vals) by {
                        if t3 < props0.len() {
                            assert(cstore@[t3] == props0[t3]);
                        } else {
                            assert(cstore@[t3] == pr);
                        }
                    }
                }
            }
            k3 = k3 + 1;
        }
        let cap = p.lecturer_requirements[l2];
        proof {
            assert(p.caps()[l2 as int] <= MAX_VALUE);
        }
        let pr = Prop::BoundedSum(inds, cap as i64);
        let ghost props0 = cstore@;
        proof {
            assert(crate::props::prop_wf(pr, nvars as int));
            assert((l2 + 1) * (sc + 1) == l2 * (sc + 1) + sc + 1) by (nonlinear_arith);
        }
        cstore.add(pr);
        proof {
            assert forall|vals: Seq<i64>| vals_in(vals, vstore@) && encoding_sat(p, vals)
                implies crate::engine::all_sat(cstore@, vals) by {
                assert(crate::engine::all_sat(props0, vals));
                lemma_cap_sat(p, pr, l2 as int, vals);
                assert forall|t3: int| 0 <= t3 < cstore@.len() implies
                    crate::props::prop_sat(#[trigger] cstore@[t3], vals) by {
                    if t3 < props0.len() {
                        assert(cstore@[t3] == props0[t3]);
                    } else {
                        assert(cstore@[t3] == pr);
                    }
                }
            }
        }
        l2 = l2 + 1;
    }
    Ok((Space { vstore, cstore }, meta))
}

} // verus!
