use vstd::prelude::*;

verus! {

/// Largest value a domain may hold.  Keeping every bound in `[0, MAX_VALUE]`
/// leaves all interval arithmetic far away from `i64` overflow.
pub const MAX_VALUE: i64 = 1_000_000_000;

/// Does the closed interval `iv` contain the value `v`?
pub open spec fn iv_contains(iv: (i64, i64), v: int) -> bool {
    iv.0 <= v <= iv.1
}

/// Is `v` covered by some interval of `s`?
pub open spec fn seq_contains(s: Seq<(i64, i64)>, v: int) -> bool {
    exists|k: int| 0 <= k < s.len() && iv_contains(#[trigger] s[k], v)
}

/// The representation invariant of a domain: intervals are non-empty, within
/// bounds, sorted, and maximally merged (a gap of at least one value between
/// consecutive intervals).
pub open spec fn seq_wf(s: Seq<(i64, i64)>) -> bool {
    &&& forall|i: int| 0 <= i < s.len() ==> 0 <= (#[trigger] s[i]).0 && s[i].0 <= s[i].1
        && s[i].1 <= MAX_VALUE
    &&& forall|i: int| 0 <= i && i + 1 < s.len() ==> (#[trigger] s[i]).1 + 1 < s[i + 1].0
}

/// Intervals of a well-formed sequence are strictly ordered, even far apart.
pub proof fn lemma_ordered(s: Seq<(i64, i64)>, k: int, l: int)
    requires
        seq_wf(s),
        0 <= k < l < s.len(),
    ensures
        s[k].1 + 1 < s[l].0,
    decreases l - k,
{
    if k + 1 < l {
        lemma_ordered(s, k + 1, l);
    }
}

/// Appending an in-range interval after a gap keeps a sequence well formed.
pub proof fn lemma_push_wf(s: Seq<(i64, i64)>, iv: (i64, i64))
    requires
        seq_wf(s),
        0 <= iv.0 <= iv.1 <= MAX_VALUE,
        s.len() > 0 ==> s.last().1 + 1 < iv.0,
    ensures
        seq_wf(s.push(iv)),
{
    let t = s.push(iv);
    assert forall|i: int| 0 <= i < t.len() implies 0 <= (#[trigger] t[i]).0 && t[i].0 <= t[i].1
        && t[i].1 <= MAX_VALUE by {
        if i < s.len() {
            assert(t[i] == s[i]);
        } else {
            assert(t[i] == iv);
        }
    }
    assert forall|i: int| 0 <= i && i + 1 < t.len() implies (#[trigger] t[i]).1 + 1 < t[i + 1].0 by {
        if i + 1 < s.len() {
            assert(t[i] == s[i] && t[i + 1] == s[i + 1]);
        } else {
            assert(t[i] == s[i] && t[i + 1] == iv && i == s.len() - 1);
            assert(s[i] == s.last());
        }
    }
}

/// Appending an interval extends the covered set by exactly that interval.
pub proof fn lemma_push_contains(s: Seq<(i64, i64)>, iv: (i64, i64))
    ensures
        forall|v: int| seq_contains(s.push(iv), v) <==> seq_contains(s, v) || iv_contains(iv, v),
{
    assert forall|v: int| seq_contains(s.push(iv), v) implies seq_contains(s, v)
        || iv_contains(iv, v) by {
        let k = choose|k: int| 0 <= k < s.push(iv).len() && iv_contains(#[trigger] s.push(iv)[k], v);
        if k < s.len() {
            assert(iv_contains(s[k], v));
        }
    }
    assert forall|v: int| seq_contains(s, v) implies seq_contains(s.push(iv), v) by {
        let k = choose|k: int| 0 <= k < s.len() && iv_contains(#[trigger] s[k], v);
        assert(iv_contains(s.push(iv)[k], v));
    }
    assert forall|v: int| iv_contains(iv, v) implies seq_contains(s.push(iv), v) by {
        assert(iv_contains(s.push(iv)[s.len() as int], v));
    }
}

/// Append to `res` the overlap of the interval `[a, b]` with every interval
/// of `o`, in order.  One step of the intersection algorithm.
#[verifier::rlimit(100)]
fn intersect_row(res: &mut Vec<(i64, i64)>, a: i64, b: i64, o: &Vec<(i64, i64)>)
    requires
        seq_wf(o@),
        seq_wf(old(res)@),
        0 <= a <= b <= MAX_VALUE,
        old(res)@.len() > 0 ==> old(res)@.last().1 + 1 < a,
    ensures
        seq_wf(final(res)@),
        final(res)@.len() > 0 ==> final(res)@.last().1 <= b,
        forall|v: int| #![trigger seq_contains(final(res)@, v)]
            seq_contains(final(res)@, v) <==> seq_contains(old(res)@, v)
            || (a <= v <= b && seq_contains(o@, v)),
{
    let m = o.len();
    let ghost orig = res@;
    let mut j: usize = 0;
    while j < m
        invariant
            seq_wf(o@),
            m == o@.len(),
            0 <= j <= m,
            0 <= a <= b <= MAX_VALUE,
            orig.len() > 0 ==> orig.last().1 + 1 < a,
            seq_wf(res@),
            res@.len() >= orig.len(),
            res@.len() > orig.len() ==> res@.last().1 <= b,
            res@.len() == orig.len() ==> res@ == orig,
            res@.len() > 0 && j < m ==> res@.last().1 + 1 < a || res@.last().1 + 1
                < o@[j as int].0,
            forall|v: int| #![trigger seq_contains(res@, v)]
                seq_contains(res@, v) <==> seq_contains(orig, v)
                || (a <= v <= b && (exists|t: int| 0 <= t < j
                    && iv_contains(#[trigger] o@[t], v))),
        decreases m - j,
    {
        let (c, d) = o[j];
        let lo = if a > c { a } else { c };
        let hi = if b < d { b } else { d };
        let ghost before = res@;
        if lo <= hi {
            proof {
                lemma_push_contains(before, (lo, hi));
                lemma_push_wf(before, (lo, hi));
            }
            res.push((lo, hi));
        }
        proof {
            if j + 1 < m {
                assert(o@[j as int].1 + 1 < o@[j + 1].0);
            }
            assert forall|v: int| #![trigger seq_contains(res@, v)]
                seq_contains(res@, v) <==> (seq_contains(orig, v)
                || (a <= v <= b && (exists|t: int| 0 <= t < j + 1
                    && iv_contains(#[trigger] o@[t], v)))) by {
                if seq_contains(res@, v) {
                    if seq_contains(before, v) {
                        if !seq_contains(orig, v) {
                            let t = choose|t: int| 0 <= t < j
                                && iv_contains(#[trigger] o@[t], v);
                            assert(0 <= t < j + 1 && iv_contains(o@[t], v));
                        }
                    } else {
                        assert(lo <= v <= hi);
                        assert(iv_contains(o@[j as int], v));
                    }
                }
                if seq_contains(orig, v) {
                    assert(seq_contains(before, v));
                    assert(seq_contains(res@, v));
                }
                if a <= v <= b && (exists|t: int| 0 <= t < j + 1
                    && iv_contains(#[trigger] o@[t], v)) {
                    let t = choose|t: int| 0 <= t < j + 1 && iv_contains(#[trigger] o@[t], v);
                    if t < j {
                        assert(seq_contains(before, v));
                        assert(seq_contains(res@, v));
                    } else {
                        assert(iv_contains(o@[j as int], v));
                        assert(lo <= v <= hi);
                        assert(iv_contains((lo, hi), v));
                        assert(seq_contains(before.push((lo, hi)), v));
                        assert(seq_contains(res@, v));
                    }
                }
            }
        }
        j = j + 1;
    }
}

/// Widening the last interval by one value extends the covered set by
/// exactly the new value.
#[verifier::rlimit(100)]
proof fn lemma_extend_interval(
    before: Seq<(i64, i64)>,
    aft: Seq<(i64, i64)>,
    sorted: Seq<i64>,
    t: int,
    a: i64,
    x: i64,
)
    requires
        seq_wf(before),
        0 < t < sorted.len(),
        forall|k: int| 0 <= k < sorted.len() ==> 0 <= #[trigger] sorted[k] <= MAX_VALUE,
        before.len() > 0,
        before.last().0 == a,
        before.last().1 == sorted[t - 1],
        sorted[t] == x,
        x == before.last().1 + 1,
        aft == before.update(before.len() - 1, (a, x)),
        forall|v: int| #![trigger seq_contains(before, v)]
            seq_contains(before, v) <==> (exists|q: int| 0 <= q < t
            && #[trigger] sorted[q] == v),
    ensures
        seq_wf(aft),
        aft.len() == before.len(),
        aft.last().1 == x,
        forall|v: int| #![trigger seq_contains(aft, v)]
            seq_contains(aft, v) <==> (exists|q: int| 0 <= q < t + 1
            && #[trigger] sorted[q] == v),
{
    let li = before.len() - 1;
    assert forall|q: int| 0 <= q < aft.len() implies 0 <= (#[trigger] aft[q]).0
        && aft[q].0 <= aft[q].1 && aft[q].1 <= MAX_VALUE by {
        if q < li {
            assert(aft[q] == before[q]);
        }
    }
    assert forall|q: int| 0 <= q && q + 1 < aft.len() implies (#[trigger] aft[q]).1 + 1
        < aft[q + 1].0 by {
        if q + 1 < li {
            assert(aft[q] == before[q] && aft[q + 1] == before[q + 1]);
        } else {
            assert(aft[q] == before[q] && aft[q + 1] == (a, x));
        }
    }
    assert forall|v: int| #![trigger seq_contains(aft, v)]
        seq_contains(aft, v) implies (exists|q: int| 0 <= q < t + 1
        && #[trigger] sorted[q] == v) by {
        let q = choose|q: int| 0 <= q < aft.len() && iv_contains(#[trigger] aft[q], v);
        if q < li {
            assert(iv_contains(before[q], v));
            assert(seq_contains(before, v));
            let w = choose|w: int| 0 <= w < t && #[trigger] sorted[w] == v;
            assert(sorted[w] == v);
        } else {
            if v == x {
                assert(sorted[t] == v);
            } else {
                assert(iv_contains(before[q], v));
                assert(seq_contains(before, v));
            }
        }
    }
    assert forall|v: int| (exists|q: int| 0 <= q < t + 1 && #[trigger] sorted[q] == v)
        implies seq_contains(aft, v) by {
        let q = choose|q: int| 0 <= q < t + 1 && #[trigger] sorted[q] == v;
        if q < t {
            assert(seq_contains(before, v));
            let w = choose|w: int| 0 <= w < before.len()
                && iv_contains(#[trigger] before[w], v);
            if w < li {
                assert(iv_contains(aft[w], v));
            } else {
                assert(iv_contains(aft[li as int], v));
            }
        } else {
            assert(v == x);
            assert(iv_contains(aft[li as int], v));
        }
    }
}

/// Appending a detached one-value interval extends the covered set by
/// exactly that value.
#[verifier::rlimit(100)]
proof fn lemma_push_value(
    before: Seq<(i64, i64)>,
    aft: Seq<(i64, i64)>,
    sorted: Seq<i64>,
    t: int,
    x: i64,
)
    requires
        seq_wf(before),
        0 <= t < sorted.len(),
        forall|k: int| 0 <= k < sorted.len() ==> 0 <= #[trigger] sorted[k] <= MAX_VALUE,
        sorted[t] == x,
        before.len() > 0 ==> before.last().1 + 1 < x,
        t == 0 ==> before.len() == 0,
        aft == before.push((x, x)),
        forall|v: int| #![trigger seq_contains(before, v)]
            seq_contains(before, v) <==> (exists|q: int| 0 <= q < t
            && #[trigger] sorted[q] == v),
    ensures
        seq_wf(aft),
        aft.len() == before.len() + 1,
        aft.last().1 == x,
        forall|v: int| #![trigger seq_contains(aft, v)]
            seq_contains(aft, v) <==> (exists|q: int| 0 <= q < t + 1
            && #[trigger] sorted[q] == v),
{
    lemma_push_wf(before, (x, x));
    lemma_push_contains(before, (x, x));
    assert forall|v: int| #![trigger seq_contains(aft, v)]
        seq_contains(aft, v) <==> (exists|q: int| 0 <= q < t + 1
        && #[trigger] sorted[q] == v) by {
        if seq_contains(aft, v) {
            if seq_contains(before, v) {
                let w = choose|w: int| 0 <= w < t && #[trigger] sorted[w] == v;
                assert(sorted[w] == v);
            } else {
                assert(v == x);
                assert(sorted[t] == v);
            }
        }
        if exists|q: int| 0 <= q < t + 1 && #[trigger] sorted[q] == v {
            let q = choose|q: int| 0 <= q < t + 1 && #[trigger] sorted[q] == v;
            if q < t {
                assert(seq_contains(before, v));
            } else {
                assert(iv_contains((x, x), v));
            }
        }
    }
}

/// A repeated value adds nothing to the covered set.
#[verifier::rlimit(100)]
proof fn lemma_skip_value(cur: Seq<(i64, i64)>, sorted: Seq<i64>, t: int, x: i64)
    requires
        seq_wf(cur),
        0 < t < sorted.len(),
        sorted[t] == x,
        cur.len() > 0,
        cur.last().1 == sorted[t - 1],
        sorted[t - 1] <= x,
        x <= cur.last().1,
        forall|v: int| #![trigger seq_contains(cur, v)]
            seq_contains(cur, v) <==> (exists|q: int| 0 <= q < t
            && #[trigger] sorted[q] == v),
    ensures
        forall|v: int| #![trigger seq_contains(cur, v)]
            seq_contains(cur, v) <==> (exists|q: int| 0 <= q < t + 1
            && #[trigger] sorted[q] == v),
{
    assert(x == cur.last().1);
    assert forall|v: int| #![trigger seq_contains(cur, v)]
        seq_contains(cur, v) <==> (exists|q: int| 0 <= q < t + 1
        && #[trigger] sorted[q] == v) by {
        if seq_contains(cur, v) {
            let w = choose|w: int| 0 <= w < t && #[trigger] sorted[w] == v;
            assert(sorted[w] == v);
        }
        if exists|q: int| 0 <= q < t + 1 && #[trigger] sorted[q] == v {
            let q = choose|q: int| 0 <= q < t + 1 && #[trigger] sorted[q] == v;
            if q == t {
                assert(v == x);
                assert(sorted[t - 1] == x);
                assert(seq_contains(cur, v));
            }
        }
    }
}

/// Build the canonical interval list covering the values of a sorted list.
#[verifier::rlimit(100)]
fn intervals_of_sorted(sorted: &Vec<i64>) -> (ivs: Vec<(i64, i64)>)
    requires
        forall|k: int| 0 <= k < sorted@.len() ==> 0 <= #[trigger] sorted@[k] <= MAX_VALUE,
        forall|k: int| 0 <= k && k + 1 < sorted@.len() ==> #[trigger] sorted@[k] <= sorted@[k + 1],
    ensures
        seq_wf(ivs@),
        forall|v: int| seq_contains(ivs@, v) <==> (exists|q: int| 0 <= q < sorted@.len()
            && #[trigger] sorted@[q] == v),
        sorted@.len() > 0 ==> ivs@.len() > 0,
{
    let mut ivs: Vec<(i64, i64)> = Vec::new();
    let mut t: usize = 0;
    while t < sorted.len()
        invariant
            0 <= t <= sorted@.len(),
            forall|q: int| 0 <= q < sorted@.len() ==> 0 <= #[trigger] sorted@[q] <= MAX_VALUE,
            forall|q: int| 0 <= q && q + 1 < sorted@.len()
                ==> #[trigger] sorted@[q] <= sorted@[q + 1],
            seq_wf(ivs@),
            t > 0 ==> ivs@.len() > 0 && ivs@.last().1 == sorted@[t - 1],
            t == 0 ==> ivs@.len() == 0,
            forall|v: int| #![trigger seq_contains(ivs@, v)]
                seq_contains(ivs@, v) <==> (exists|q: int| 0 <= q < t
                && #[trigger] sorted@[q] == v),
        decreases sorted.len() - t,
    {
        let x = sorted[t];
        let ghost before = ivs@;
        if t == 0 || ivs[ivs.len() - 1].1 < x {
            let extend_last = t > 0 && {
                let lastv = ivs[ivs.len() - 1].1;
                lastv == x - 1
            };
            if extend_last {
                let li = ivs.len() - 1;
                let (a, _) = ivs[li];
                ivs.set(li, (a, x));
                proof {
                    lemma_extend_interval(before, ivs@, sorted@, t as int, a, x);
                }
            } else {
                ivs.push((x, x));
                proof {
                    lemma_push_value(before, ivs@, sorted@, t as int, x);
                }
            }
        } else {
            proof {
                lemma_skip_value(ivs@, sorted@, t as int, x);
            }
        }
        t = t + 1;
    }
    ivs
}

/// A set of integers, stored as sorted, disjoint, maximally merged closed
/// intervals.  An empty domain denotes failure; a one-value domain denotes an
/// assigned variable.  All operations are pure: they return a new domain.
pub struct Domain {
    ivs: Vec<(i64, i64)>,
}

impl View for Domain {
    type V = Seq<(i64, i64)>;

    closed spec fn view(&self) -> Seq<(i64, i64)> {
        self.ivs@
    }
}

/// Every value of `a` is also a value of `b`.
pub open spec fn sub_dom(a: Domain, b: Domain) -> bool {
    forall|v: int| a.contains_spec(v) ==> b.contains_spec(v)
}

/// `fin` holds exactly the values shared by `base` and `other`.
pub open spec fn narrowed_to(fin: Domain, base: Domain, other: Domain) -> bool {
    forall|v: int| #![trigger fin.contains_spec(v)]
        fin.contains_spec(v) <==> base.contains_spec(v) && other.contains_spec(v)
}

/// `a` and `b` share no value.
pub open spec fn no_common(a: Domain, b: Domain) -> bool {
    forall|v: int| #![trigger a.contains_spec(v)]
        !(a.contains_spec(v) && b.contains_spec(v))
}

impl Domain {
    /// The well-formedness invariant.
    pub open spec fn inv(&self) -> bool {
        seq_wf(self@)
    }

    /// The set of values this domain stands for.
    pub open spec fn contains_spec(&self, v: int) -> bool {
        seq_contains(self@, v)
    }

    pub open spec fn is_empty_spec(&self) -> bool {
        self@.len() == 0
    }

    pub open spec fn lower_spec(&self) -> i64 {
        self@[0].0
    }

    pub open spec fn upper_spec(&self) -> i64 {
        self@[self@.len() - 1].1
    }

    /// A domain with exactly one value.
    pub open spec fn assigned_spec(&self) -> bool {
        self@.len() == 1 && self@[0].0 == self@[0].1
    }

    /// Every value lies between the bounds, and the bounds are values.
    pub proof fn lemma_bounds(&self)
        requires
            self.inv(),
        ensures
            !self.is_empty_spec() ==> self.contains_spec(self.lower_spec() as int)
                && self.contains_spec(self.upper_spec() as int),
            forall|v: int| self.contains_spec(v) ==> 0 <= v <= MAX_VALUE,
            forall|v: int| self.contains_spec(v) ==> self.lower_spec() <= v,
            forall|v: int| self.contains_spec(v) ==> v <= self.upper_spec(),
    {
        if self@.len() > 0 {
            assert(iv_contains(self@[0], self@[0].0 as int));
            assert(iv_contains(self@[self@.len() - 1], self@[self@.len() - 1].1 as int));
        }
        assert forall|v: int| self.contains_spec(v) implies self.lower_spec() <= v
            && v <= self.upper_spec() && 0 <= v <= MAX_VALUE by {
            let k = choose|k: int| 0 <= k < self@.len() && iv_contains(#[trigger] self@[k], v);
            if k > 0 {
                lemma_ordered(self@, 0, k);
            }
            if k < self@.len() - 1 {
                lemma_ordered(self@, k, self@.len() - 1);
            }
        }
    }

    /// An assigned domain holds exactly its lower bound.
    pub proof fn lemma_assigned(&self)
        requires
            self.inv(),
            self.assigned_spec(),
        ensures
            forall|v: int| self.contains_spec(v) <==> v == self.lower_spec() as int,
    {
        self.lemma_bounds();
        assert(iv_contains(self@[0], self.lower_spec() as int));
    }

    /// A non-empty domain whose values are all `v` is the singleton `v`.
    pub proof fn lemma_subset_singleton(&self, v: int)
        requires
            self.inv(),
            !self.is_empty_spec(),
            forall|w: int| self.contains_spec(w) ==> w == v,
        ensures
            self.assigned_spec(),
            self.lower_spec() as int == v,
    {
        let s = self@;
        assert(iv_contains(s[0], s[0].0 as int));
        assert(self.contains_spec(s[0].0 as int));
        assert(s[0].0 as int == v);
        assert(iv_contains(s[0], s[0].1 as int));
        assert(self.contains_spec(s[0].1 as int));
        assert(s[0].1 as int == v);
        if s.len() > 1 {
            assert(iv_contains(s[1], s[1].0 as int));
            assert(self.contains_spec(s[1].0 as int));
            assert(s[0].1 + 1 < s[1].0);
        }
    }

    /// A non-empty, non-assigned domain has two distinct values: its bounds.
    pub proof fn lemma_two_values(&self)
        requires
            self.inv(),
            !self.is_empty_spec(),
            !self.assigned_spec(),
        ensures
            self.lower_spec() < self.upper_spec(),
            self.contains_spec(self.lower_spec() as int),
            self.contains_spec(self.upper_spec() as int),
    {
        self.lemma_bounds();
        if self@.len() > 1 {
            lemma_ordered(self@, 0, self@.len() - 1);
        }
    }

    /// The empty domain.
    pub fn empty() -> (r: Domain)
        ensures
            r.inv(),
            r.is_empty_spec(),
            forall|v: int| !r.contains_spec(v),
    {
        Domain { ivs: Vec::new() }
    }

    /// The domain `{lo, lo + 1, ..., hi}`.
    pub fn range(lo: i64, hi: i64) -> (r: Domain)
        requires
            0 <= lo <= hi <= MAX_VALUE,
        ensures
            r.inv(),
            forall|v: int| r.contains_spec(v) <==> lo <= v <= hi,
            !r.is_empty_spec(),
            r.lower_spec() == lo,
            r.upper_spec() == hi,
            lo == hi ==> r.assigned_spec(),
    {
        let mut ivs: Vec<(i64, i64)> = Vec::new();
        ivs.push((lo, hi));
        let r = Domain { ivs };
        proof {
            assert(r@.len() == 1 && r@[0] == (lo, hi));
            lemma_push_wf(Seq::<(i64, i64)>::empty(), (lo, hi));
            assert(r@ == Seq::<(i64, i64)>::empty().push((lo, hi)));
            assert forall|v: int| r.contains_spec(v) <==> lo <= v <= hi by {
                if lo <= v <= hi {
                    assert(iv_contains(r@[0], v));
                }
            }
        }
        r
    }

    /// The domain `{v}`.
    pub fn singleton(v: i64) -> (r: Domain)
        requires
            0 <= v <= MAX_VALUE,
        ensures
            r.inv(),
            forall|w: int| r.contains_spec(w) <==> w == v,
            !r.is_empty_spec(),
            r.assigned_spec(),
            r.lower_spec() == v,
    {
        Domain::range(v, v)
    }

    pub fn is_empty(&self) -> (r: bool)
        ensures
            r == self.is_empty_spec(),
    {
        self.ivs.len() == 0
    }

    pub fn is_assigned(&self) -> (r: bool)
        ensures
            r == self.assigned_spec(),
    {
        self.ivs.len() == 1 && self.ivs[0].0 == self.ivs[0].1
    }

    pub fn lower(&self) -> (r: i64)
        requires
            self.inv(),
            !self.is_empty_spec(),
        ensures
            r == self.lower_spec(),
    {
        self.ivs[0].0
    }

    pub fn upper(&self) -> (r: i64)
        requires
            self.inv(),
            !self.is_empty_spec(),
        ensures
            r == self.upper_spec(),
    {
        self.ivs[self.ivs.len() - 1].1
    }

    /// How many values the domain holds, capped at `MAX_VALUE` for safety.
    /// Used only to pick a branching variable; no caller relies on the count.
    pub fn approx_size(&self) -> (r: i64)
        requires
            self.inv(),
        ensures
            r >= 0,
    {
        let mut total: i64 = 0;
        let mut i: usize = 0;
        while i < self.ivs.len()
            invariant
                self.inv(),
                0 <= total,
            decreases self.ivs.len() - i,
        {
            let (a, b) = self.ivs[i];
            let w = b - a + 1;
            if total <= MAX_VALUE - w {
                total = total + w;
            }
            i = i + 1;
        }
        total
    }

    pub fn contains(&self, v: i64) -> (r: bool)
        requires
            self.inv(),
        ensures
            r == self.contains_spec(v as int),
    {
        let mut i: usize = 0;
        while i < self.ivs.len()
            invariant
                self.inv(),
                0 <= i <= self.ivs@.len(),
                forall|k: int| 0 <= k < i ==> !iv_contains(#[trigger] self@[k], v as int),
            decreases self.ivs.len() - i,
        {
            let (a, b) = self.ivs[i];
            if a <= v && v <= b {
                return true;
            }
            i = i + 1;
        }
        false
    }

    /// An identical copy (same interval list).
    pub fn copy_of(&self) -> (r: Domain)
        ensures
            r@ == self@,
    {
        let mut ivs: Vec<(i64, i64)> = Vec::new();
        let mut i: usize = 0;
        while i < self.ivs.len()
            invariant
                0 <= i <= self.ivs@.len(),
                ivs@ == self.ivs@.take(i as int),
            decreases self.ivs.len() - i,
        {
            ivs.push(self.ivs[i]);
            proof {
                assert(ivs@ =~= self.ivs@.take(i + 1 as int));
            }
            i = i + 1;
        }
        proof {
            assert(ivs@ =~= self.ivs@);
        }
        Domain { ivs }
    }

    /// Structural equality of two domains.  Equal interval lists stand for
    /// equal sets; by maximal merging the converse holds as well, but no
    /// caller needs it.
    pub fn same_as(&self, other: &Domain) -> (r: bool)
        ensures
            r == (self@ == other@),
    {
        if self.ivs.len() != other.ivs.len() {
            proof {
                assert(self@.len() != other@.len());
            }
            return false;
        }
        let mut i: usize = 0;
        while i < self.ivs.len()
            invariant
                self.ivs@.len() == other.ivs@.len(),
                0 <= i <= self.ivs@.len(),
                forall|k: int| 0 <= k < i ==> self@[k] == other@[k],
            decreases self.ivs.len() - i,
        {
            let (a, b) = self.ivs[i];
            let (c, d) = other.ivs[i];
            if a != c || b != d {
                proof {
                    assert(self@[i as int] != other@[i as int]);
                }
                return false;
            }
            i = i + 1;
        }
        proof {
            assert(self@ =~= other@);
        }
        true
    }

    /// The values shared by `self` and `other`.  Never grows either set; the
    /// result is empty exactly when the two domains are disjoint.
    #[verifier::rlimit(100)]
    pub fn intersect(&self, other: &Domain) -> (r: Domain)
        requires
            self.inv(),
            other.inv(),
        ensures
            r.inv(),
            forall|v: int| r.contains_spec(v) <==> self.contains_spec(v)
                && other.contains_spec(v),
    {
        let n = self.ivs.len();
        let mut res: Vec<(i64, i64)> = Vec::new();
        let mut i: usize = 0;
        while i < n
            invariant
                self.inv(),
                other.inv(),
                n == self@.len(),
                0 <= i <= n,
                seq_wf(res@),
                res@.len() > 0 && i < n ==> res@.last().1 + 1 < self@[i as int].0,
                forall|v: int| #![trigger seq_contains(res@, v)]
                    seq_contains(res@, v) <==> ((exists|k: int| 0 <= k < i
                    && iv_contains(#[trigger] self@[k], v)) && seq_contains(other@, v)),
            decreases n - i,
        {
            let (a, b) = self.ivs[i];
            let ghost before = res@;
            intersect_row(&mut res, a, b, &other.ivs);
            proof {
                assert forall|v: int| #![trigger seq_contains(res@, v)]
                    seq_contains(res@, v) <==> ((exists|k: int| 0 <= k < i + 1
                    && iv_contains(#[trigger] self@[k], v)) && seq_contains(other@, v)) by {
                    if seq_contains(res@, v) {
                        if seq_contains(before, v) {
                            let k = choose|k: int| 0 <= k < i && iv_contains(#[trigger] self@[k], v)
                                && seq_contains(other@, v);
                            assert(0 <= k < i + 1 && iv_contains(self@[k], v));
                        } else {
                            assert(iv_contains(self@[i as int], v));
                        }
                    }
                    if (exists|k: int| 0 <= k < i + 1 && iv_contains(#[trigger] self@[k], v))
                        && seq_contains(other@, v) {
                        let k = choose|k: int| 0 <= k < i + 1
                            && iv_contains(#[trigger] self@[k], v);
                        if k < i {
                            assert(seq_contains(before, v));
                        } else {
                            assert(a <= v <= b);
                        }
                    }
                }
                if i + 1 < n && res@.len() > 0 {
                    assert(self@[i as int].1 + 1 < self@[i + 1].0);
                }
            }
            i = i + 1;
        }
        let r = Domain { ivs: res };
        proof {
            assert forall|v: int| r.contains_spec(v) <==> self.contains_spec(v)
                && other.contains_spec(v) by {
                if self.contains_spec(v) {
                    let k = choose|k: int| 0 <= k < self@.len()
                        && iv_contains(#[trigger] self@[k], v);
                    assert(0 <= k < n && iv_contains(self@[k], v));
                }
            }
        }
        r
    }



    /// The domain holding exactly the values of `vals` (in any order, with
    /// duplicates allowed).
    #[verifier::rlimit(100)]
    pub fn from_values(vals: &Vec<i64>) -> (r: Domain)
        requires
            forall|k: int| 0 <= k < vals@.len() ==> 0 <= #[trigger] vals@[k] <= MAX_VALUE,
        ensures
            r.inv(),
            forall|v: int| r.contains_spec(v) <==> (exists|q: int| 0 <= q < vals@.len()
                && #[trigger] vals@[q] as int == v),
            vals@.len() > 0 ==> !r.is_empty_spec(),
    {
        let mut sorted: Vec<i64> = Vec::new();
        let mut k: usize = 0;
        while k < vals.len()
            invariant
                0 <= k <= vals@.len(),
                forall|q: int| 0 <= q < vals@.len() ==> 0 <= #[trigger] vals@[q] <= MAX_VALUE,
                forall|q: int| 0 <= q < sorted@.len() ==> 0 <= #[trigger] sorted@[q] <= MAX_VALUE,
                forall|q: int| 0 <= q && q + 1 < sorted@.len()
                    ==> #[trigger] sorted@[q] <= sorted@[q + 1],
                forall|w: i64| sorted@.contains(w) <==> vals@.take(k as int).contains(w),
                sorted@.len() == k,
            decreases vals.len() - k,
        {
            let x = vals[k];
            let mut idx: usize = 0;
            while idx < sorted.len() && sorted[idx] <= x
                invariant
                    0 <= idx <= sorted@.len(),
                    forall|q: int| 0 <= q < idx ==> #[trigger] sorted@[q] <= x,
                    forall|q: int| 0 <= q && q + 1 < sorted@.len()
                        ==> #[trigger] sorted@[q] <= sorted@[q + 1],
                decreases sorted.len() - idx,
            {
                idx = idx + 1;
            }
            let ghost before = sorted@;
            sorted.insert(idx, x);
            proof {
                let aft = sorted@;
                assert(aft == before.insert(idx as int, x));
                assert forall|q: int| 0 <= q && q + 1 < aft.len()
                    implies #[trigger] aft[q] <= aft[q + 1] by {
                    if q + 1 < idx {
                        assert(aft[q] == before[q] && aft[q + 1] == before[q + 1]);
                    } else if q + 1 == idx {
                        assert(aft[q] == before[q] && aft[q + 1] == x);
                    } else if q == idx {
                        assert(aft[q] == x && aft[q + 1] == before[q]);
                        if idx < before.len() {
                            assert(before[idx as int] > x);
                        }
                    } else {
                        assert(aft[q] == before[q - 1] && aft[q + 1] == before[q]);
                    }
                }
                assert forall|q: int| 0 <= q < aft.len() implies
                    0 <= #[trigger] aft[q] <= MAX_VALUE by {
                    if q < idx {
                        assert(aft[q] == before[q]);
                    } else if q == idx {
                    } else {
                        assert(aft[q] == before[q - 1]);
                    }
                }
                assert forall|w: i64| aft.contains(w) implies
                    vals@.take(k + 1).contains(w) by {
                    let q = choose|q: int| 0 <= q < aft.len() && aft[q] == w;
                    if q == idx {
                        assert(vals@.take(k + 1)[k as int] == x);
                    } else {
                        let qb: int = if q < idx { q } else { q - 1 };
                        assert(before[qb] == w);
                        assert(before.contains(w));
                        assert(vals@.take(k as int).contains(w));
                        let t = choose|t: int| 0 <= t < k && vals@.take(k as int)[t] == w;
                        assert(vals@.take(k + 1)[t] == w);
                    }
                }
                assert forall|w: i64| vals@.take(k + 1).contains(w) implies
                    aft.contains(w) by {
                    let t = choose|t: int| 0 <= t < k + 1 && #[trigger] vals@.take(k + 1)[t] == w;
                    if t < k {
                        assert(vals@.take(k as int)[t] == w);
                        assert(vals@.take(k as int).contains(w));
                        assert(before.contains(w));
                        let q = choose|q: int| 0 <= q < before.len() && before[q] == w;
                        let qa: int = if q < idx { q } else { q + 1 };
                        assert(aft[qa] == w);
                    } else {
                        assert(w == x);
                        assert(aft[idx as int] == x);
                    }
                }
            }
            k = k + 1;
        }
        proof {
            assert(vals@.take(vals@.len() as int) =~= vals@);
        }
        let ivs = intervals_of_sorted(&sorted);
        let r = Domain { ivs };
        proof {
            assert forall|v: int| r.contains_spec(v) <==> (exists|q: int|
                0 <= q < vals@.len() && #[trigger] vals@[q] as int == v) by {
                if r.contains_spec(v) {
                    let q = choose|q: int| 0 <= q < sorted@.len() && #[trigger] sorted@[q] == v;
                    assert(sorted@.contains(sorted@[q]));
                    assert(vals@.contains(sorted@[q]));
                    let t = choose|t: int| 0 <= t < vals@.len()
                        && #[trigger] vals@[t] == sorted@[q];
                    assert(vals@[t] as int == v);
                }
                if exists|q: int| 0 <= q < vals@.len() && #[trigger] vals@[q] as int == v {
                    let q = choose|q: int| 0 <= q < vals@.len()
                        && #[trigger] vals@[q] as int == v;
                    assert(vals@.contains(vals@[q]));
                    assert(sorted@.contains(vals@[q]));
                    let t = choose|t: int| 0 <= t < sorted@.len()
                        && #[trigger] sorted@[t] == vals@[q];
                    assert(sorted@[t] as int == v);
                    assert(r.contains_spec(v));
                }
            }
            if vals@.len() > 0 {
                assert(vals@.contains(vals@[0]));
                assert(sorted@.contains(vals@[0]));
                let t0 = choose|t: int| 0 <= t < sorted@.len()
                    && #[trigger] sorted@[t] == vals@[0];
                assert(r.contains_spec(vals@[0] as int));
            }
        }
        r
    }

    /// All values of `self` except `v`.
    #[verifier::rlimit(100)]
    pub fn remove_value(&self, v: i64) -> (r: Domain)
        requires
            self.inv(),
            0 <= v <= MAX_VALUE,
        ensures
            r.inv(),
            forall|w: int| r.contains_spec(w) <==> self.contains_spec(w) && w != v,
    {
        let mut ivs: Vec<(i64, i64)> = Vec::new();
        if v > 0 {
            ivs.push((0, v - 1));
        }
        if v < MAX_VALUE {
            ivs.push((v + 1, MAX_VALUE));
        }
        let comp = Domain { ivs };
        proof {
            if v > 0 {
                lemma_push_wf(Seq::<(i64, i64)>::empty(), (0, (v - 1) as i64));
                if v < MAX_VALUE {
                    lemma_push_wf(
                        Seq::<(i64, i64)>::empty().push((0, (v - 1) as i64)),
                        ((v + 1) as i64, MAX_VALUE),
                    );
                }
            } else {
                lemma_push_wf(Seq::<(i64, i64)>::empty(), ((v + 1) as i64, MAX_VALUE));
            }
            assert(seq_wf(comp@));
            assert forall|w: int| comp.contains_spec(w) <==> (0 <= w <= MAX_VALUE && w != v) by {
                if 0 <= w <= MAX_VALUE && w != v {
                    if w < v {
                        assert(iv_contains(comp@[0], w));
                    } else {
                        assert(iv_contains(comp@[comp@.len() - 1], w));
                    }
                }
            }
            self.lemma_bounds();
        }
        self.intersect(&comp)
    }
}

/// If two well-formed lists cover the same values and start at the same
/// point, the first interval of `a` ends no later than that of `b`.
proof fn lemma_canonical_first_end(a: Seq<(i64, i64)>, b: Seq<(i64, i64)>)
    requires
        seq_wf(a),
        seq_wf(b),
        forall|v: int| seq_contains(a, v) == seq_contains(b, v),
        a.len() > 0,
        b.len() > 0,
        a[0].0 == b[0].0,
    ensures
        a[0].1 <= b[0].1,
{
    assert(iv_contains(a[0], a[0].1 as int));
    assert(seq_contains(a, a[0].1 as int));
    assert(seq_contains(b, a[0].1 as int));
    let k = choose|k: int| 0 <= k < b.len() && iv_contains(#[trigger] b[k], a[0].1 as int);
    if k > 0 {
        lemma_ordered(b, 0, k);
        let w = b[0].1 + 1;
        assert(a[0].0 <= w <= a[0].1);
        assert(iv_contains(a[0], w));
        assert(seq_contains(a, w));
        assert(seq_contains(b, w));
        let q = choose|q: int| 0 <= q < b.len() && iv_contains(#[trigger] b[q], w);
        if q > 0 {
            lemma_ordered(b, 0, q);
        }
        assert(false);
    }
}

/// Dropping the first interval keeps a list well formed.
proof fn lemma_tail_wf(a: Seq<(i64, i64)>)
    requires
        seq_wf(a),
        a.len() > 0,
    ensures
        seq_wf(a.drop_first()),
{
    let ta = a.drop_first();
    assert forall|i: int| 0 <= i < ta.len() implies 0 <= (#[trigger] ta[i]).0
        && ta[i].0 <= ta[i].1 && ta[i].1 <= MAX_VALUE by {
        assert(ta[i] == a[i + 1]);
    }
    assert forall|i: int| 0 <= i && i + 1 < ta.len() implies (#[trigger] ta[i]).1 + 1
        < ta[i + 1].0 by {
        assert(ta[i] == a[i + 1] && ta[i + 1] == a[i + 2]);
    }
}

/// With equal first intervals and equal value sets, the tails cover the same
/// values.
proof fn lemma_tail_contains(a: Seq<(i64, i64)>, b: Seq<(i64, i64)>)
    requires
        seq_wf(a),
        seq_wf(b),
        forall|v: int| seq_contains(a, v) == seq_contains(b, v),
        a.len() > 0,
        b.len() > 0,
        a[0] == b[0],
    ensures
        forall|v: int| seq_contains(a.drop_first(), v) == seq_contains(b.drop_first(), v),
{
    let ta = a.drop_first();
    let tb = b.drop_first();
    assert forall|v: int| seq_contains(ta, v) == seq_contains(tb, v) by {
        if seq_contains(ta, v) {
            let k = choose|k: int| 0 <= k < ta.len() && iv_contains(#[trigger] ta[k], v);
            assert(ta[k] == a[k + 1]);
            assert(seq_contains(a, v));
            lemma_ordered(a, 0, k + 1);
            assert(v > a[0].1);
            assert(seq_contains(b, v));
            let q = choose|q: int| 0 <= q < b.len() && iv_contains(#[trigger] b[q], v);
            assert(q > 0);
            assert(tb[q - 1] == b[q]);
            assert(iv_contains(tb[q - 1], v));
        }
        if seq_contains(tb, v) {
            let k = choose|k: int| 0 <= k < tb.len() && iv_contains(#[trigger] tb[k], v);
            assert(tb[k] == b[k + 1]);
            assert(seq_contains(b, v));
            lemma_ordered(b, 0, k + 1);
            assert(v > b[0].1);
            assert(seq_contains(a, v));
            let q = choose|q: int| 0 <= q < a.len() && iv_contains(#[trigger] a[q], v);
            assert(q > 0);
            assert(ta[q - 1] == a[q]);
            assert(iv_contains(ta[q - 1], v));
        }
    }
}

/// A well-formed interval list is canonical: two well-formed lists covering
/// exactly the same values are identical.
#[verifier::rlimit(100)]
pub proof fn lemma_canonical(a: Seq<(i64, i64)>, b: Seq<(i64, i64)>)
    requires
        seq_wf(a),
        seq_wf(b),
        forall|v: int| seq_contains(a, v) == seq_contains(b, v),
    ensures
        a == b,
    decreases a.len(),
{
    if a.len() == 0 {
        if b.len() > 0 {
            assert(iv_contains(b[0], b[0].0 as int));
            assert(seq_contains(b, b[0].0 as int));
            assert(false);
        }
        assert(a =~= b);
    } else if b.len() == 0 {
        assert(iv_contains(a[0], a[0].0 as int));
        assert(seq_contains(a, a[0].0 as int));
        assert(false);
    } else {
        assert(iv_contains(a[0], a[0].0 as int));
        assert(seq_contains(b, a[0].0 as int));
        let kb = choose|k: int| 0 <= k < b.len() && iv_contains(#[trigger] b[k], a[0].0 as int);
        if kb > 0 {
            lemma_ordered(b, 0, kb);
        }
        assert(iv_contains(b[0], b[0].0 as int));
        assert(seq_contains(a, b[0].0 as int));
        let ka = choose|k: int| 0 <= k < a.len() && iv_contains(#[trigger] a[k], b[0].0 as int);
        if ka > 0 {
            lemma_ordered(a, 0, ka);
        }
        assert(a[0].0 == b[0].0);
        lemma_canonical_first_end(a, b);
        lemma_canonical_first_end(b, a);
        assert(a[0] == b[0]);
        let ta = a.drop_first();
        let tb = b.drop_first();
        lemma_tail_wf(a);
        lemma_tail_wf(b);
        lemma_tail_contains(a, b);
        lemma_canonical(ta, tb);
        assert(ta.len() == tb.len());
        assert(a.len() == b.len());
        assert forall|i: int| 0 <= i < a.len() implies #[trigger] a[i] == b[i] by {
            if i > 0 {
                assert(a[i] == ta[i - 1] && b[i] == tb[i - 1]);
            }
        }
        assert(a =~= b);
    }
}

} // verus!
