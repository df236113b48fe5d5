use crate::domain::{Domain, narrowed_to, no_common};
use vstd::prelude::*;

verus! {

/// All domains are well formed and non-empty.
pub open spec fn seq_inv(st: Seq<Domain>) -> bool {
    forall|i: int| 0 <= i < st.len() ==> (#[trigger] st[i]).inv() && !st[i].is_empty_spec()
}

/// Every variable holds exactly one value.
pub open spec fn seq_all_assigned(st: Seq<Domain>) -> bool {
    forall|i: int| 0 <= i < st.len() ==> (#[trigger] st[i]).assigned_spec()
}

/// The value of each variable, read as its lower bound (exact once assigned).
pub open spec fn seq_vals(st: Seq<Domain>) -> Seq<i64> {
    Seq::new(st.len(), |i: int| st[i].lower_spec())
}

/// `vals` is a full assignment lying inside the domains of `st`.
pub open spec fn vals_in(vals: Seq<i64>, st: Seq<Domain>) -> bool {
    vals.len() == st.len() && forall|i: int| 0 <= i < st.len()
        ==> (#[trigger] st[i]).contains_spec(vals[i] as int)
}

/// Domain-wise inclusion: every variable of `a` has narrowed from `b`.
pub open spec fn within(a: Seq<Domain>, b: Seq<Domain>) -> bool {
    a.len() == b.len() && forall|i: int, v: int| 0 <= i < a.len()
        && #[trigger] a[i].contains_spec(v) ==> b[i].contains_spec(v)
}

/// The two stores hold equal interval lists for every variable.
pub open spec fn same_doms(a: Seq<Domain>, b: Seq<Domain>) -> bool {
    a.len() == b.len() && forall|i: int| 0 <= i < a.len() ==> (#[trigger] a[i])@ == b[i]@
}

/// Stores with equal interval lists agree on every view-level spec.
pub proof fn lemma_same_doms(a: Seq<Domain>, b: Seq<Domain>)
    requires
        same_doms(a, b),
    ensures
        seq_vals(a) == seq_vals(b),
        seq_inv(a) == seq_inv(b),
        seq_all_assigned(a) == seq_all_assigned(b),
        forall|vals: Seq<i64>| vals_in(vals, a) == vals_in(vals, b),
        within(a, b),
        within(b, a),
{
    assert(seq_vals(a) =~= seq_vals(b));
    assert(seq_inv(a) == seq_inv(b)) by {
        if seq_inv(a) {
            assert forall|i: int| 0 <= i < b.len() implies (#[trigger] b[i]).inv()
                && !b[i].is_empty_spec() by {
                assert(a[i]@ == b[i]@);
            }
        }
        if seq_inv(b) {
            assert forall|i: int| 0 <= i < a.len() implies (#[trigger] a[i]).inv()
                && !a[i].is_empty_spec() by {
                assert(a[i]@ == b[i]@);
            }
        }
    }
    assert(seq_all_assigned(a) == seq_all_assigned(b)) by {
        if seq_all_assigned(a) {
            assert forall|i: int| 0 <= i < b.len() implies (#[trigger] b[i]).assigned_spec() by {
                assert(a[i]@ == b[i]@);
            }
        }
        if seq_all_assigned(b) {
            assert forall|i: int| 0 <= i < a.len() implies (#[trigger] a[i]).assigned_spec() by {
                assert(a[i]@ == b[i]@);
            }
        }
    }
    assert forall|vals: Seq<i64>| vals_in(vals, a) == vals_in(vals, b) by {
        if vals_in(vals, a) {
            assert forall|i: int| 0 <= i < b.len() implies (#[trigger] b[i]).contains_spec(
                vals[i] as int) by {
                assert(a[i]@ == b[i]@ && a[i].contains_spec(vals[i] as int));
            }
        }
        if vals_in(vals, b) {
            assert forall|i: int| 0 <= i < a.len() implies (#[trigger] a[i]).contains_spec(
                vals[i] as int) by {
                assert(a[i]@ == b[i]@ && b[i].contains_spec(vals[i] as int));
            }
        }
    }
    assert forall|i: int, v: int| 0 <= i < a.len() && #[trigger] a[i].contains_spec(v)
        implies b[i].contains_spec(v) by {
        assert(a[i]@ == b[i]@);
    }
    assert forall|i: int, v: int| 0 <= i < b.len() && #[trigger] b[i].contains_spec(v)
        implies a[i].contains_spec(v) by {
        assert(a[i]@ == b[i]@);
    }
}

/// Owns every finite-domain variable of one search space.  A variable is a
/// stable index into the store; its domain only ever narrows.
pub struct VariableStore {
    doms: Vec<Domain>,
}

impl View for VariableStore {
    type V = Seq<Domain>;

    closed spec fn view(&self) -> Seq<Domain> {
        self.doms@
    }
}

impl VariableStore {
    pub open spec fn inv(&self) -> bool {
        seq_inv(self@)
    }

    pub fn new() -> (r: VariableStore)
        ensures
            r@.len() == 0,
            r.inv(),
    {
        VariableStore { doms: Vec::new() }
    }

    pub fn len(&self) -> (r: usize)
        ensures
            r == self@.len(),
    {
        self.doms.len()
    }

    /// Add a variable with the given initial domain; returns its identity.
    pub fn alloc_var(&mut self, d: Domain) -> (id: usize)
        requires
            old(self).inv(),
            d.inv(),
            !d.is_empty_spec(),
        ensures
            final(self).inv(),
            final(self)@ == old(self)@.push(d),
            id as int == old(self)@.len(),
    {
        let id = self.doms.len();
        self.doms.push(d);
        id
    }

    pub fn domain_at(&self, id: usize) -> (r: &Domain)
        requires
            (id as int) < self@.len(),
        ensures
            *r == self@[id as int],
    {
        &self.doms[id]
    }

    /// Do the two stores hold identical interval lists for every variable?
    pub fn views_equal(&self, other: &VariableStore) -> (r: bool)
        ensures
            r == same_doms(self@, other@),
    {
        if self.doms.len() != other.doms.len() {
            return false;
        }
        let mut i: usize = 0;
        while i < self.doms.len()
            invariant
                self@.len() == other@.len(),
                0 <= i <= self@.len(),
                forall|k: int| 0 <= k < i ==> (#[trigger] self@[k])@ == other@[k]@,
            decreases self.doms.len() - i,
        {
            if !self.doms[i].same_as(&other.doms[i]) {
                proof {
                    assert(self@[i as int]@ != other@[i as int]@);
                }
                return false;
            }
            i = i + 1;
        }
        true
    }

    /// An independent store whose domains read the same.
    pub fn snapshot(&self) -> (r: VariableStore)
        ensures
            same_doms(r@, self@),
    {
        let mut doms: Vec<Domain> = Vec::new();
        let mut i: usize = 0;
        while i < self.doms.len()
            invariant
                0 <= i <= self@.len(),
                doms@.len() == i,
                forall|k: int| 0 <= k < i ==> (#[trigger] doms@[k])@ == self@[k]@,
            decreases self.doms.len() - i,
        {
            doms.push(self.doms[i].copy_of());
            i = i + 1;
        }
        VariableStore { doms }
    }

    /// Replace variable `id`'s domain by its intersection with `other`.
    /// Fails, leaving the store untouched, exactly when the intersection is
    /// empty; otherwise reports whether the domain actually shrank.
    pub fn narrow(&mut self, id: usize, other: &Domain) -> (r: Result<bool, ()>)
        requires
            old(self).inv(),
            (id as int) < old(self)@.len(),
            other.inv(),
        ensures
            final(self).inv(),
            final(self)@.len() == old(self)@.len(),
            forall|i: int| 0 <= i < old(self)@.len() && i != id as int
                ==> final(self)@[i] == old(self)@[i],
            match r {
                Ok(changed) => {
                    &&& narrowed_to(final(self)@[id as int], old(self)@[id as int], *other)
                    &&& !changed ==> final(self)@ == old(self)@
                    &&& !final(self)@[id as int].is_empty_spec()
                    &&& old(self)@[id as int].assigned_spec() ==> !changed
                },
                Err(_) => {
                    &&& final(self)@ == old(self)@
                    &&& no_common(old(self)@[id as int], *other)
                },
            },
    {
        let nd = self.doms[id].intersect(other);
        if nd.is_empty() {
            Err(())
        } else {
            let same = nd.same_as(&self.doms[id]);
            proof {
                let cur = self@[id as int];
                if cur.assigned_spec() {
                    cur.lemma_assigned();
                    let v = cur.lower_spec() as int;
                    assert forall|w: int| nd.contains_spec(w) implies w == v by {}
                    nd.lemma_subset_singleton(v);
                    assert(nd@.len() == 1 && cur@.len() == 1);
                    assert(nd@[0].0 == v && nd@[0].1 == v);
                    assert(cur@[0].0 == v && cur@[0].1 == v);
                    assert(nd@[0] == cur@[0]);
                    assert(nd@ =~= cur@);
                }
            }
            if same {
                proof {
                    let cur = self@[id as int];
                    assert forall|v: int| #![trigger cur.contains_spec(v)]
                        cur.contains_spec(v) <==> cur.contains_spec(v)
                        && other.contains_spec(v) by {
                        assert(nd@ == cur@);
                        assert(nd.contains_spec(v) == cur.contains_spec(v));
                    }
                    assert(narrowed_to(cur, cur, *other));
                }
                Ok(false)
            } else {
                self.doms.set(id, nd);
                Ok(true)
            }
        }
    }
}

} // verus!
