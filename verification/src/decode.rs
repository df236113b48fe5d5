use crate::store::{VariableStore, seq_vals};
use vstd::multiset::Multiset;
use vstd::prelude::*;

verus! {

/// Lexicographic order on schedule rows of four identities.
pub open spec fn row_le(a: (usize, usize, usize, usize), b: (usize, usize, usize, usize)) -> bool {
    ||| a.0 < b.0
    ||| (a.0 == b.0 && a.1 < b.1)
    ||| (a.0 == b.0 && a.1 == b.1 && a.2 < b.2)
    ||| (a.0 == b.0 && a.1 == b.1 && a.2 == b.2 && a.3 <= b.3)
}

pub open spec fn sorted_rows(s: Seq<(usize, usize, usize, usize)>) -> bool {
    forall|i: int| 0 <= i && i + 1 < s.len() ==> row_le(#[trigger] s[i], s[i + 1])
}

/// The (group, subject) projection of decoded rows.
pub open spec fn rows_gs(rows: Seq<(usize, usize, usize, usize)>) -> Seq<(usize, usize)> {
    rows.map_values(|r: (usize, usize, usize, usize)| (r.0, r.2))
}

/// Rows rearranged as (lecturer, hour, subject, group) for the second view.
pub open spec fn swapped(rows: Seq<(usize, usize, usize, usize)>) -> Seq<
    (usize, usize, usize, usize),
> {
    rows.map_values(|r: (usize, usize, usize, usize)| (r.3, r.1, r.2, r.0))
}

/// How many rows name lecturer `l`.
pub open spec fn count_for_lect(rows: Seq<(usize, usize, usize, usize)>, l: usize) -> int
    decreases rows.len(),
{
    if rows.len() == 0 {
        0
    } else {
        count_for_lect(rows.drop_last(), l) + if rows.last().3 == l {
            1int
        } else {
            0int
        }
    }
}

/// No lecturer is scheduled for more hours than their cap.
pub open spec fn respects_caps(caps: Seq<usize>, rows: Seq<(usize, usize, usize, usize)>) -> bool {
    forall|l: int| 0 <= l < caps.len()
        ==> count_for_lect(rows, l as usize) <= #[trigger] caps[l]
}

/// Within each group, all scheduled hours are pairwise distinct.
pub open spec fn group_hours_distinct(rows: Seq<(usize, usize, usize, usize)>) -> bool {
    forall|a: int, b: int| 0 <= a < b < rows.len() && (#[trigger] rows[a]).0
        == (#[trigger] rows[b]).0 ==> rows[a].1 != rows[b].1
}

/// No two rows anywhere share the same (hour, lecturer) pair.
pub open spec fn slots_distinct(rows: Seq<(usize, usize, usize, usize)>) -> bool {
    forall|a: int, b: int| 0 <= a < b < rows.len()
        ==> !((#[trigger] rows[a]).1 == (#[trigger] rows[b]).1 && rows[a].3 == rows[b].3)
}

/// Every row's lecturer is qualified for its subject.
pub open spec fn lecturers_qualified(
    quals: Seq<Seq<usize>>,
    rows: Seq<(usize, usize, usize, usize)>,
) -> bool {
    forall|k: int| 0 <= k < rows.len() ==> ((#[trigger] rows[k]).2 as int) < quals.len()
        && quals[rows[k].2 as int].contains(rows[k].3)
}

/// Every row's hour fits the day.
pub open spec fn hours_in_range(rows: Seq<(usize, usize, usize, usize)>, hours: usize) -> bool {
    forall|k: int| 0 <= k < rows.len() ==> (#[trigger] rows[k]).1 < hours
}

/// A found schedule: rows in encoding order plus the two presentation views,
/// sorted by (group, hour, subject, lecturer) and by
/// (lecturer, hour, subject, group).
pub struct Solution {
    pub entries: Vec<(usize, usize, usize, usize)>,
    pub by_group: Vec<(usize, usize, usize, usize)>,
    pub by_lecturer: Vec<(usize, usize, usize, usize)>,
}

/// Read the assigned singleton of every session's pair of variables back
/// into (group, hour, subject, lecturer) rows, in encoding order.
pub fn decode(vs: &VariableStore, meta: &Vec<(usize, usize)>) -> (r: Vec<
    (usize, usize, usize, usize),
>)
    requires
        vs.inv(),
        2 * meta@.len() <= vs@.len(),
    ensures
        r@.len() == meta@.len(),
        forall|k: int| 0 <= k < meta@.len() ==> (#[trigger] r@[k]).0 == meta@[k].0
            && r@[k].2 == meta@[k].1
            && r@[k].1 as int == seq_vals(vs@)[2 * k] as int
            && r@[k].3 as int == seq_vals(vs@)[2 * k + 1] as int,
{
    let nv = vs.len();
    let mut r: Vec<(usize, usize, usize, usize)> = Vec::new();
    let mut k: usize = 0;
    while k < meta.len()
        invariant
            vs.inv(),
            2 * meta@.len() <= vs@.len(),
            nv == vs@.len(),
            0 <= k <= meta@.len(),
            r@.len() == k,
            forall|q: int| 0 <= q < k ==> (#[trigger] r@[q]).0 == meta@[q].0
                && r@[q].2 == meta@[q].1
                && r@[q].1 as int == seq_vals(vs@)[2 * q] as int
                && r@[q].3 as int == seq_vals(vs@)[2 * q + 1] as int,
        decreases meta.len() - k,
    {
        let (g, s) = meta[k];
        let hv = vs.domain_at(2 * k).lower();
        let lv = vs.domain_at(2 * k + 1).lower();
        proof {
            vs@[2 * k as int].lemma_bounds();
            vs@[2 * k + 1].lemma_bounds();
            assert(vs@[2 * k as int].contains_spec(hv as int));
            assert(vs@[2 * k + 1].contains_spec(lv as int));
            assert(0 <= hv <= crate::domain::MAX_VALUE);
            assert(0 <= lv <= crate::domain::MAX_VALUE);
            assert(seq_vals(vs@)[2 * k as int] == hv);
            assert(seq_vals(vs@)[2 * k + 1] == lv);
        }
        r.push((g, hv as usize, s, lv as usize));
        k = k + 1;
    }
    r
}

fn row_le_exec(a: (usize, usize, usize, usize), b: (usize, usize, usize, usize)) -> (r: bool)
    ensures
        r == row_le(a, b),
{
    if a.0 != b.0 {
        a.0 < b.0
    } else if a.1 != b.1 {
        a.1 < b.1
    } else if a.2 != b.2 {
        a.2 < b.2
    } else {
        a.3 <= b.3
    }
}

/// Sort rows lexicographically.  The result holds exactly the same rows
/// (equal multiset), in non-decreasing order.
#[verifier::rlimit(100)]
pub fn sort_rows(rows: &Vec<(usize, usize, usize, usize)>) -> (r: Vec<
    (usize, usize, usize, usize),
>)
    ensures
        sorted_rows(r@),
        r@.to_multiset() == rows@.to_multiset(),
{
    let mut rem: Vec<(usize, usize, usize, usize)> = Vec::new();
    let mut i: usize = 0;
    while i < rows.len()
        invariant
            0 <= i <= rows@.len(),
            rem@ == rows@.take(i as int),
        decreases rows.len() - i,
    {
        rem.push(rows[i]);
        proof {
            assert(rem@ =~= rows@.take(i + 1));
        }
        i = i + 1;
    }
    proof {
        assert(rem@ =~= rows@);
    }
    let mut out: Vec<(usize, usize, usize, usize)> = Vec::new();
    proof {
        broadcast use vstd::seq_lib::group_to_multiset_ensures;

        assert(out@.to_multiset() =~= Multiset::empty());
        assert(out@.to_multiset().add(rem@.to_multiset()) =~= rows@.to_multiset());
    }
    while rem.len() > 0
        invariant
            out@.to_multiset().add(rem@.to_multiset()) =~= rows@.to_multiset(),
            sorted_rows(out@),
            forall|a: int, b: int| 0 <= a < out@.len() && 0 <= b < rem@.len()
                ==> row_le(#[trigger] out@[a], #[trigger] rem@[b]),
        decreases rem.len(),
    {
        let mut mi: usize = 0;
        let mut t: usize = 1;
        while t < rem.len()
            invariant
                rem@.len() > 0,
                0 <= mi < rem@.len(),
                1 <= t <= rem@.len(),
                forall|q: int| 0 <= q < t ==> row_le(rem@[mi as int], #[trigger] rem@[q]),
            decreases rem.len() - t,
        {
            if row_le_exec(rem[t], rem[mi]) {
                proof {
                    assert forall|q: int| 0 <= q < t + 1 implies row_le(
                        rem@[t as int],
                        #[trigger] rem@[q],
                    ) by {
                        if q < t {
                            assert(row_le(rem@[mi as int], rem@[q]));
                        }
                    }
                }
                mi = t;
            }
            t = t + 1;
        }
        let ghost rem0 = rem@;
        let ghost out0 = out@;
        let x = rem.remove(mi);
        out.push(x);
        proof {
            broadcast use vstd::seq_lib::group_to_multiset_ensures;

            assert(x == rem0[mi as int]);
            assert(rem@ == rem0.remove(mi as int));
            assert(rem@.to_multiset() =~= rem0.to_multiset().remove(x));
            assert(out@.to_multiset() =~= out0.to_multiset().insert(x));
            assert(rem0.to_multiset().contains(x)) by {
                assert(rem0.contains(x));
            }
            assert(out@.to_multiset().add(rem@.to_multiset()) =~= rows@.to_multiset());
            assert forall|a: int| 0 <= a < out@.len() implies row_le(
                #[trigger] out@[a],
                x,
            ) by {
                if a < out0.len() {
                    assert(row_le(out0[a], rem0[mi as int]));
                }
            }
            assert forall|a: int, b: int| 0 <= a < out@.len() && 0 <= b < rem@.len()
                implies row_le(#[trigger] out@[a], #[trigger] rem@[b]) by {
                let borig: int = if b < mi { b } else { b + 1 };
                assert(rem@[b] == rem0[borig]);
                if a < out0.len() {
                    assert(row_le(out0[a], rem0[borig]));
                } else {
                    assert(out@[a] == x);
                    assert(row_le(rem0[mi as int], rem0[borig]));
                }
            }
            assert forall|q: int| 0 <= q && q + 1 < out@.len() implies row_le(
                #[trigger] out@[q],
                out@[q + 1],
            ) by {
                if q + 1 < out0.len() {
                    assert(out@[q] == out0[q] && out@[q + 1] == out0[q + 1]);
                } else {
                    assert(out@[q] == out0[q] && out@[q + 1] == x);
                }
            }
        }
    }
    proof {
        assert(rem@.to_multiset() =~= Multiset::empty()) by {
            broadcast use vstd::seq_lib::group_to_multiset_ensures;

        }
        assert(out@.to_multiset() =~= rows@.to_multiset());
    }
    out
}

/// The rows rearranged as (lecturer, hour, subject, group).
pub fn swap_rows(rows: &Vec<(usize, usize, usize, usize)>) -> (r: Vec<
    (usize, usize, usize, usize),
>)
    ensures
        r@ == swapped(rows@),
{
    let mut r: Vec<(usize, usize, usize, usize)> = Vec::new();
    let mut k: usize = 0;
    while k < rows.len()
        invariant
            0 <= k <= rows@.len(),
            r@.len() == k,
            forall|q: int| 0 <= q < k ==> #[trigger] r@[q] == (rows@[q].3, rows@[q].1,
                rows@[q].2, rows@[q].0),
        decreases rows.len() - k,
    {
        let (g, h, s, l) = rows[k];
        r.push((l, h, s, g));
        k = k + 1;
    }
    proof {
        assert(r@ =~= swapped(rows@));
    }
    r
}

/// One prefix step of the lecturer count.
proof fn lemma_count_step(rows: Seq<(usize, usize, usize, usize)>, l: usize, k: int)
    requires
        0 <= k < rows.len(),
    ensures
        count_for_lect(rows.take(k + 1), l) == count_for_lect(rows.take(k), l)
            + if rows[k].3 == l {
            1int
        } else {
            0int
        },
{
    let t = rows.take(k + 1);
    assert(t.drop_last() =~= rows.take(k));
    assert(t.last() == rows[k]);
}

/// Does the schedule keep every lecturer within their cap?
pub fn check_caps(caps: &Vec<usize>, rows: &Vec<(usize, usize, usize, usize)>) -> (r: bool)
    ensures
        r == respects_caps(caps@, rows@),
{
    let mut l: usize = 0;
    while l < caps.len()
        invariant
            0 <= l <= caps@.len(),
            forall|q: int| 0 <= q < l ==> count_for_lect(rows@, q as usize)
                <= #[trigger] caps@[q],
        decreases caps.len() - l,
    {
        let mut cnt: usize = 0;
        let mut k: usize = 0;
        while k < rows.len()
            invariant
                0 <= k <= rows@.len(),
                cnt <= k,
                cnt == count_for_lect(rows@.take(k as int), l),
            decreases rows.len() - k,
        {
            proof {
                lemma_count_step(rows@, l, k as int);
            }
            if rows[k].3 == l {
                cnt = cnt + 1;
            }
            k = k + 1;
        }
        proof {
            assert(rows@.take(rows@.len() as int) =~= rows@);
        }
        if cnt > caps[l] {
            return false;
        }
        l = l + 1;
    }
    true
}

/// Are the hours of each group's rows pairwise distinct?
pub fn check_group_hours(rows: &Vec<(usize, usize, usize, usize)>) -> (r: bool)
    ensures
        r == group_hours_distinct(rows@),
{
    let mut a: usize = 0;
    while a < rows.len()
        invariant
            0 <= a <= rows@.len(),
            forall|x: int, y: int| 0 <= x < y < rows@.len() && x < a
                && (#[trigger] rows@[x]).0 == (#[trigger] rows@[y]).0
                ==> rows@[x].1 != rows@[y].1,
        decreases rows.len() - a,
    {
        let mut b: usize = a + 1;
        while b < rows.len()
            invariant
                0 <= a < rows@.len(),
                a < b <= rows@.len(),
                forall|x: int, y: int| 0 <= x < y < rows@.len() && x < a
                    && (#[trigger] rows@[x]).0 == (#[trigger] rows@[y]).0
                    ==> rows@[x].1 != rows@[y].1,
                forall|y: int| a < y < b && (#[trigger] rows@[a as int]).0 == rows@[y].0
                    ==> rows@[a as int].1 != rows@[y].1,
            decreases rows.len() - b,
        {
            if rows[a].0 == rows[b].0 && rows[a].1 == rows[b].1 {
                return false;
            }
            b = b + 1;
        }
        proof {
            assert forall|x: int, y: int| 0 <= x < y < rows@.len() && x < a + 1
                && (#[trigger] rows@[x]).0 == (#[trigger] rows@[y]).0
                implies rows@[x].1 != rows@[y].1 by {
                if x == a as int {
                }
            }
        }
        a = a + 1;
    }
    true
}

/// Do any two rows collide on (hour, lecturer)?
pub fn check_slots(rows: &Vec<(usize, usize, usize, usize)>) -> (r: bool)
    ensures
        r == slots_distinct(rows@),
{
    let mut a: usize = 0;
    while a < rows.len()
        invariant
            0 <= a <= rows@.len(),
            forall|x: int, y: int| 0 <= x < y < rows@.len() && x < a
                ==> !((#[trigger] rows@[x]).1 == (#[trigger] rows@[y]).1
                    && rows@[x].3 == rows@[y].3),
        decreases rows.len() - a,
    {
        let mut b: usize = a + 1;
        while b < rows.len()
            invariant
                0 <= a < rows@.len(),
                a < b <= rows@.len(),
                forall|x: int, y: int| 0 <= x < y < rows@.len() && x < a
                    ==> !((#[trigger] rows@[x]).1 == (#[trigger] rows@[y]).1
                        && rows@[x].3 == rows@[y].3),
                forall|y: int| a < y < b ==> !((#[trigger] rows@[a as int]).1 == rows@[y].1
                    && rows@[a as int].3 == rows@[y].3),
            decreases rows.len() - b,
        {
            if rows[a].1 == rows[b].1 && rows[a].3 == rows[b].3 {
                return false;
            }
            b = b + 1;
        }
        proof {
            assert forall|x: int, y: int| 0 <= x < y < rows@.len() && x < a + 1
                implies !((#[trigger] rows@[x]).1 == (#[trigger] rows@[y]).1
                    && rows@[x].3 == rows@[y].3) by {
                if x == a as int {
                }
            }
        }
        a = a + 1;
    }
    true
}

/// Is every row's lecturer on the qualified list of its subject?
pub fn check_qualified(quals: &Vec<Vec<usize>>, rows: &Vec<(usize, usize, usize, usize)>) -> (r:
    bool)
    ensures
        r == lecturers_qualified(quals@.map_values(|v: Vec<usize>| v@), rows@),
{
    let ghost qv = quals@.map_values(|v: Vec<usize>| v@);
    let mut k: usize = 0;
    while k < rows.len()
        invariant
            qv == quals@.map_values(|v: Vec<usize>| v@),
            0 <= k <= rows@.len(),
            forall|q: int| 0 <= q < k ==> ((#[trigger] rows@[q]).2 as int) < qv.len()
                && qv[rows@[q].2 as int].contains(rows@[q].3),
        decreases rows.len() - k,
    {
        let s = rows[k].2;
        let l = rows[k].3;
        if s >= quals.len() {
            return false;
        }
        let list = &quals[s];
        proof {
            assert(qv[s as int] == list@);
        }
        let mut found = false;
        let mut t: usize = 0;
        while t < list.len()
            invariant
                0 <= t <= list@.len(),
                found ==> list@.contains(l),
                !found ==> forall|q: int| 0 <= q < t ==> #[trigger] list@[q] != l,
            decreases list.len() - t,
        {
            if list[t] == l {
                found = true;
            }
            t = t + 1;
        }
        if !found {
            proof {
                assert(!list@.contains(l));
            }
            return false;
        }
        k = k + 1;
    }
    true
}

/// Is every hour within the day?
pub fn check_hours(rows: &Vec<(usize, usize, usize, usize)>, hours: usize) -> (r: bool)
    ensures
        r == hours_in_range(rows@, hours),
{
    let mut k: usize = 0;
    while k < rows.len()
        invariant
            0 <= k <= rows@.len(),
            forall|q: int| 0 <= q < k ==> (#[trigger] rows@[q]).1 < hours,
        decreases rows.len() - k,
    {
        if rows[k].1 >= hours {
            return false;
        }
        k = k + 1;
    }
    true
}

} // verus!
