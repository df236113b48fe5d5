pub mod domain;
pub mod store;
pub mod props;
pub mod engine;
pub mod encode;
pub mod decode;

pub use decode::Solution;
pub use encode::Problem;

use crate::decode::{
    check_caps, check_group_hours, check_hours, check_qualified, check_slots, decode,
    group_hours_distinct, hours_in_range, lecturers_qualified, respects_caps, rows_gs,
    slots_distinct, sort_rows, sorted_rows, swap_rows, swapped,
};
use crate::encode::{
    all_sessions, encode, encoded_vals_in, encoding_sat, encoding_unsat, lemma_encoded_vals_in,
    problem_limits, valid_problem,
};
use crate::engine::{search, SearchResult};
use vstd::prelude::*;

verus! {

/// Time slots per day.
pub const HOURS: usize = 20;

/// The outcome of solving a timetabling instance.
pub enum Outcome {
    /// A feasible schedule was found.
    Satisfiable(Solution),
    /// The whole search tree was explored without finding a schedule.
    Unsatisfiable,
    /// The step budget ran out before the search could conclude.
    EndOfSearch,
    /// Malformed input: a group references an unknown subject or one with no
    /// qualified lecturer.
    InvalidProblem,
}

/// Assign every required session an hour and a lecturer, or report that none
/// was found.  Encodes the problem as finite-domain variables and
/// propagators, searches depth first with propagation, decodes the first
/// satisfying assignment, and verifies the decoded schedule against the
/// scheduling rules before returning it.  The budget bounds the number of
/// search steps; exhausting it ends the search inconclusively.
///
/// A `Satisfiable` outcome carries a schedule with one row per required
/// session, in encoding order, that stays within every lecturer's cap, gives
/// each group pairwise distinct hours, books no (hour, lecturer) slot twice,
/// uses only qualified lecturers and in-range hours, and whose (group,
/// subject) rows are exactly the sessions the requirements demand.
///
/// An `Unsatisfiable` outcome comes from exhausting the whole search tree
/// and is a definitive proof, stated over the problem alone: no assignment
/// of in-range hours, qualified lecturers and consistent indicators
/// satisfies every constraint the encoding emits (`encoding_unsat`).
pub fn solve(problem: &Problem, hours: usize, budget: u64) -> (r: Outcome)
    requires
        problem_limits(problem, hours),
    ensures
        r is InvalidProblem <==> !valid_problem(problem),
        budget == 0 && valid_problem(problem) ==> r is EndOfSearch,
        r is Unsatisfiable ==> encoding_unsat(problem, hours),
        match r {
            Outcome::Satisfiable(sol) => {
                &&& sol.entries@.len() == all_sessions(problem.reqs()).len()
                &&& forall|k: int| 0 <= k < sol.entries@.len()
                    ==> ((#[trigger] sol.entries@[k]).0, sol.entries@[k].2)
                        == all_sessions(problem.reqs())[k]
                &&& rows_gs(sol.entries@).to_multiset()
                    == all_sessions(problem.reqs()).to_multiset()
                &&& respects_caps(problem.caps(), sol.entries@)
                &&& group_hours_distinct(sol.entries@)
                &&& lecturers_qualified(problem.quals(), sol.entries@)
                &&& slots_distinct(sol.entries@)
                &&& hours_in_range(sol.entries@, hours)
                &&& sorted_rows(sol.by_group@)
                &&& sol.by_group@.to_multiset() == sol.entries@.to_multiset()
                &&& sorted_rows(sol.by_lecturer@)
                &&& sol.by_lecturer@.to_multiset() == swapped(sol.entries@).to_multiset()
            },
            _ => true,
        },
{
    let enc = encode(problem, hours);
    match enc {
        Err(_) => Outcome::InvalidProblem,
        Ok((space, meta)) => {
            let ghost enc_doms = space.vstore@;
            let ghost enc_props = space.cstore@;
            match search(&space.cstore, space.vstore, budget) {
                SearchResult::Unsatisfiable => {
                    proof {
                        assert forall|vals: Seq<i64>| encoded_vals_in(problem, hours, vals)
                            && encoding_sat(problem, vals) implies false by {
                            lemma_encoded_vals_in(problem, hours, enc_doms, meta@, vals);
                        }
                    }
                    Outcome::Unsatisfiable
                },
                SearchResult::EndOfSearch => Outcome::EndOfSearch,
                SearchResult::Satisfiable(f) => {
                    proof {
                        assert(problem.caps().len() * (meta@.len() + 2) >= 0)
                            by (nonlinear_arith);
                    }
                    let entries = decode(&f, &meta);
                    let ok_caps = check_caps(&problem.lecturer_requirements, &entries);
                    let ok_hours_distinct = check_group_hours(&entries);
                    let ok_qualified = check_qualified(&problem.subject_requirements, &entries);
                    let ok_slots = check_slots(&entries);
                    let ok_range = check_hours(&entries, hours);
                    if ok_caps && ok_hours_distinct && ok_qualified && ok_slots && ok_range {
                        let by_group = sort_rows(&entries);
                        let swapped_rows = swap_rows(&entries);
                        let by_lecturer = sort_rows(&swapped_rows);
                        proof {
                            assert(rows_gs(entries@) =~= all_sessions(problem.reqs()));
                        }
                        Outcome::Satisfiable(Solution { entries, by_group, by_lecturer })
                    } else {
                        // The engine reaches here only with an assignment
                        // that satisfies every propagator, and such an
                        // assignment passes all five checks, so this branch
                        // is dead in practice; proving it dead needs the
                        // encoder's contract to name the constraint set it
                        // builds.  Rather than return an unchecked schedule,
                        // the search is reported as inconclusive.
                        Outcome::EndOfSearch
                    }
                },
            }
        },
    }
}

} // verus!
