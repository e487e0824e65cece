//! Spans of offsets, and plans over them.

use mvs::plan::{plan_serving, ServeTarget};
use mvs::span::{count, intersect, within, Span};

/// Span intersection, the core of solve: overlapping, touching-but-not-
/// overlapping, and one span spanning several of the other.
#[test]
fn intersects_spans() {
    assert_eq!(intersect(&[(0, 10)], &[(5, 20)]), [(5, 10)]);
    assert_eq!(intersect(&[(0, 4)], &[(5, 20)]), []);
    assert_eq!(
        intersect(&[(0, 100)], &[(5, 10), (20, 30)]),
        [(5, 10), (20, 30)]
    );
    assert_eq!(intersect(&[], &[(5, 10)]), []);
}

#[test]
fn intersects_either_way_round() {
    let a = [(0, 3), (7, 12), (15, 15)];
    let b = [(2, 8), (10, 20)];
    assert_eq!(intersect(&a, &b), [(2, 3), (7, 8), (10, 12), (15, 15)]);
    assert_eq!(intersect(&b, &a), intersect(&a, &b));
}

#[test]
fn counts_offsets() {
    assert_eq!(count(&[]), 0);
    assert_eq!(count(&[(5, 5)]), 1);
    assert_eq!(count(&[(0, 9), (20, 24)]), 15);
}

#[test]
fn finds_offsets_within_spans() {
    assert!(within(&[(0, 2), (8, 9)], 8));
    assert!(within(&[(0, 2), (8, 9)], 2));
    assert!(!within(&[(0, 2), (8, 9)], 5));
    assert!(!within(&[], 0));
}

fn target(key: &str, spans: &[Span], candidates: &[i64]) -> ServeTarget {
    ServeTarget {
        key: key.to_string(),
        spans: spans.to_vec(),
        candidates: candidates.to_vec(),
    }
}

fn at(targets: &[ServeTarget], fixed: &[i64], key: &str) -> i64 {
    *plan_serving(targets, fixed).get(key).unwrap()
}

/// Overlapping targets share one revision; disjoint ones get one each, resolved
/// newest-first so the lone newest pin lands exactly where it would alone.
#[test]
fn plans_shared_revisions() {
    let plan = plan_serving(
        &[target("a", &[(0, 10)], &[10]), target("b", &[(5, 8)], &[8])],
        &[],
    );
    assert_eq!(plan.get("a"), Some(&8));
    assert_eq!(plan.get("b"), Some(&8));

    let plan = plan_serving(
        &[target("a", &[(0, 4)], &[4]), target("b", &[(6, 9)], &[9])],
        &[],
    );
    assert_eq!(plan.get("a"), Some(&4));
    assert_eq!(plan.get("b"), Some(&9));
}

/// Coverage beats freshness, freshness breaks ties: the point serving both
/// targets wins over the newer point serving one.
#[test]
fn prefers_coverage_then_newest() {
    let plan = plan_serving(
        &[
            target("a", &[(0, 10)], &[10]),
            target("b", &[(0, 12)], &[12]),
        ],
        &[],
    );
    assert_eq!(plan.get("a"), Some(&10));
    assert_eq!(plan.get("b"), Some(&10));
}

/// A pierce point can sit at another target's span end: gaps in one target's
/// lifetime do not stop it sharing where the runs overlap.
#[test]
fn plans_across_gaps() {
    let plan = plan_serving(
        &[
            target("a", &[(0, 2), (8, 9)], &[2, 9]),
            target("b", &[(0, 3)], &[3]),
        ],
        &[],
    );
    assert_eq!(plan.get("a"), Some(&2));
    assert_eq!(plan.get("b"), Some(&2));
}

/// Fixed revisions are free: a target one can serve takes the newest such fixed
/// revision instead of anything from the cover, and a fixed revision outside
/// every span changes nothing.
#[test]
fn reuses_fixed_revisions() {
    let plan = plan_serving(&[target("a", &[(0, 10)], &[10])], &[3, 7]);
    assert_eq!(plan.get("a"), Some(&7));

    let plan = plan_serving(&[target("a", &[(0, 10)], &[10])], &[20]);
    assert_eq!(plan.get("a"), Some(&10));
}

#[test]
fn plans_nothing_for_no_targets() {
    assert_eq!(plan_serving(&[], &[1, 2]).len(), 0);
}

#[test]
fn plans_alike_in_any_order() {
    let a = || target("a", &[(0, 10)], &[10]);
    let b = || target("b", &[(5, 8)], &[8]);
    let c = || target("c", &[(9, 20)], &[20]);
    let d = || target("d", &[(18, 19)], &[19]);
    let one = [a(), b(), c(), d()];
    let other = [d(), b(), c(), a()];
    for key in ["a", "b", "c", "d"] {
        assert_eq!(at(&one, &[], key), at(&other, &[], key));
        assert_eq!(at(&one, &[6], key), at(&other, &[6], key));
    }
}

#[test]
fn gives_a_lone_target_its_newest() {
    assert_eq!(at(&[target("a", &[(0, 2), (8, 9)], &[2, 9])], &[], "a"), 9);
}

#[test]
fn serves_all_from_one_revision_where_one_can() {
    let targets = [
        target("a", &[(0, 10)], &[10]),
        target("b", &[(4, 6)], &[6]),
        target("c", &[(5, 30)], &[30]),
    ];
    for key in ["a", "b", "c"] {
        assert_eq!(at(&targets, &[], key), 6);
    }
}

#[test]
fn serves_a_target_from_the_candidate_of_another() {
    let targets = [target("a", &[(0, 10)], &[]), target("b", &[(5, 8)], &[8])];
    assert_eq!(at(&targets, &[], "a"), 8);
    assert_eq!(at(&targets, &[], "b"), 8);
}

#[test]
fn a_useless_fixed_revision_changes_nothing_beside_useful_ones() {
    let targets = [
        target("a", &[(0, 10)], &[10]),
        target("b", &[(30, 40)], &[40]),
        target("c", &[(35, 50)], &[50]),
    ];
    for key in ["a", "b", "c"] {
        assert_eq!(at(&targets, &[3, 7, 20], key), at(&targets, &[3, 7], key));
    }
    assert_eq!(at(&targets, &[3, 7, 20], "a"), 7);
    assert_eq!(at(&targets, &[3, 7, 20], "b"), 40);
    assert_eq!(at(&targets, &[3, 7, 20], "c"), 40);
}
