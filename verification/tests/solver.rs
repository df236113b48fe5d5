use timetable::decode::{
    check_caps, check_group_hours, check_hours, check_qualified, check_slots, sort_rows,
};
use timetable::domain::Domain;
use timetable::encode::encode;
use timetable::{solve, Outcome, Problem, HOURS};

fn example_problem() -> Problem {
    Problem::new(
        vec![
            vec![(0, 2), (1, 5), (2, 2), (3, 1)],
            vec![(0, 1), (3, 2), (4, 6), (2, 1)],
            vec![(0, 1), (2, 8), (3, 1)],
        ],
        vec![6, 6, 10, 4, 4],
        vec![vec![3], vec![0, 2], vec![0, 1], vec![4], vec![1, 2]],
    )
}

#[test]
fn example_is_satisfiable_and_meets_all_rules() {
    let p = example_problem();
    match solve(&p, HOURS, 5_000_000) {
        Outcome::Satisfiable(sol) => {
            assert_eq!(sol.entries.len(), 30);
            assert!(check_caps(&vec![6, 6, 10, 4, 4], &sol.entries));
            assert!(check_group_hours(&sol.entries));
            assert!(check_slots(&sol.entries));
            assert!(check_qualified(
                &vec![vec![3], vec![0, 2], vec![0, 1], vec![4], vec![1, 2]],
                &sol.entries
            ));
            assert!(check_hours(&sol.entries, HOURS));
            assert_eq!(sol.by_group.len(), 30);
            assert_eq!(sol.by_lecturer.len(), 30);
        }
        _ => panic!("expected a satisfiable outcome"),
    }
}

#[test]
fn sole_lecturer_with_zero_cap_is_unsatisfiable() {
    let p = Problem::new(
        vec![
            vec![(0, 2), (1, 5), (2, 2), (3, 1)],
            vec![(0, 1), (3, 2), (4, 6), (2, 1)],
            vec![(0, 1), (2, 8), (3, 1)],
        ],
        vec![6, 6, 0, 4, 4],
        vec![vec![3], vec![2], vec![2], vec![4], vec![1, 2]],
    );
    match solve(&p, HOURS, 5_000_000) {
        Outcome::Unsatisfiable => {}
        _ => panic!("expected an unsatisfiable outcome"),
    }
}

#[test]
fn empty_qualified_list_is_invalid() {
    let p = Problem::new(
        vec![vec![(0, 1), (1, 1)]],
        vec![2, 2],
        vec![vec![0], vec![]],
    );
    match solve(&p, HOURS, 1000) {
        Outcome::InvalidProblem => {}
        _ => panic!("expected the invalid-problem outcome"),
    }
}

#[test]
fn unknown_subject_is_invalid() {
    let p = Problem::new(vec![vec![(7, 1)]], vec![2], vec![vec![0]]);
    match solve(&p, HOURS, 1000) {
        Outcome::InvalidProblem => {}
        _ => panic!("expected the invalid-problem outcome"),
    }
}

#[test]
fn group_needing_more_hours_than_the_day_is_unsatisfiable() {
    let p = Problem::new(vec![vec![(0, 21)]], vec![30], vec![vec![0]]);
    match solve(&p, HOURS, 5_000_000) {
        Outcome::Unsatisfiable => {}
        _ => panic!("expected an unsatisfiable outcome"),
    }
}

#[test]
fn tiny_problem_solves() {
    let p = Problem::new(vec![vec![(0, 2)]], vec![2], vec![vec![0]]);
    match solve(&p, HOURS, 100_000) {
        Outcome::Satisfiable(sol) => {
            assert_eq!(sol.entries.len(), 2);
            let (g0, h0, s0, l0) = sol.entries[0];
            let (g1, h1, s1, l1) = sol.entries[1];
            assert_eq!((g0, s0, l0), (0, 0, 0));
            assert_eq!((g1, s1, l1), (0, 0, 0));
            assert_ne!(h0, h1);
            assert!(h0 < HOURS && h1 < HOURS);
        }
        _ => panic!("expected a satisfiable outcome"),
    }
}

#[test]
fn encoding_twice_gives_equal_counts() {
    let p = example_problem();
    let (sp1, meta1) = encode(&p, HOURS).unwrap();
    let (sp2, meta2) = encode(&p, HOURS).unwrap();
    assert_eq!(sp1.vstore.len(), sp2.vstore.len());
    assert_eq!(sp1.cstore.len(), sp2.cstore.len());
    assert_eq!(meta1, meta2);
}

#[test]
fn empty_domain_holds_nothing() {
    let d = Domain::empty();
    assert!(d.is_empty());
    assert!(!d.contains(0));
    let e = d.intersect(&Domain::range(0, 9));
    assert!(e.is_empty());
}

#[test]
fn domain_intersection_keeps_shared_values_only() {
    let a = Domain::range(0, 5);
    let b = Domain::range(3, 9);
    let c = a.intersect(&b);
    assert!(!c.contains(2));
    assert!(c.contains(3));
    assert!(c.contains(5));
    assert!(!c.contains(6));
    assert_eq!(c.lower(), 3);
    assert_eq!(c.upper(), 5);
}

#[test]
fn domain_remove_value_splits_an_interval() {
    let a = Domain::range(0, 4);
    let b = a.remove_value(2);
    assert!(b.contains(0) && b.contains(1) && b.contains(3) && b.contains(4));
    assert!(!b.contains(2));
    assert!(!b.is_empty());
    let c = Domain::singleton(7);
    assert!(c.is_assigned());
    assert!(c.remove_value(7).is_empty());
}

#[test]
fn domain_from_values_holds_exactly_the_given_values() {
    let d = Domain::from_values(&vec![4, 1, 4, 2]);
    assert!(d.contains(1) && d.contains(2) && d.contains(4));
    assert!(!d.contains(0) && !d.contains(3) && !d.contains(5));
    assert_eq!(d.lower(), 1);
    assert_eq!(d.upper(), 4);
}

#[test]
fn sorting_orders_rows_lexicographically() {
    let rows = vec![(1, 3, 0, 2), (0, 5, 1, 1), (1, 2, 9, 9), (0, 5, 0, 3)];
    let sorted = sort_rows(&rows);
    assert_eq!(sorted, vec![(0, 5, 0, 3), (0, 5, 1, 1), (1, 2, 9, 9), (1, 3, 0, 2)]);
}

#[test]
fn cap_checker_refuses_an_overfull_lecturer() {
    let rows = vec![(0, 0, 0, 0), (0, 1, 0, 0)];
    assert!(!check_caps(&vec![1], &rows));
    assert!(check_caps(&vec![2], &rows));
}

#[test]
fn slot_checker_refuses_a_double_booking() {
    let rows = vec![(0, 3, 0, 1), (1, 3, 2, 1)];
    assert!(!check_slots(&rows));
    let ok = vec![(0, 3, 0, 1), (1, 4, 2, 1), (2, 3, 2, 2)];
    assert!(check_slots(&ok));
}

#[test]
fn group_hour_checker_refuses_a_clash_within_a_group() {
    let rows = vec![(0, 3, 0, 1), (0, 3, 2, 2)];
    assert!(!check_group_hours(&rows));
    let ok = vec![(0, 3, 0, 1), (0, 4, 2, 2), (1, 3, 2, 2)];
    assert!(check_group_hours(&ok));
}

#[test]
fn qualification_checker_refuses_an_unqualified_lecturer() {
    let rows = vec![(0, 0, 1, 0)];
    assert!(!check_qualified(&vec![vec![0], vec![1, 2]], &rows));
    let rows2 = vec![(0, 0, 1, 2)];
    assert!(check_qualified(&vec![vec![0], vec![1, 2]], &rows2));
}
