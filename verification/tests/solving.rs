//! Solving over a small history.

use mvs::constraint::Constraint;
use mvs::error::Failure;
use mvs::index::{Commit, Index, Run};
use mvs::map::StringMap;
use mvs::pin::{pin_for, target_for};
use mvs::resolve::{newest_pinnable, spans_for, version_at, versions_at};
use mvs::solve::{solve, Answer, Conflict, Solution};

fn commit(rev: &str, date: &str, fetchable: bool) -> Commit {
    let hash = if fetchable { Some("sha256-0".to_string()) } else { None };
    Commit::labelled(rev.to_string(), date.to_string(), hash).unwrap()
}

/// Revisions 0 to 6; the last is not fetchable yet, and not covered either.
fn commits() -> Vec<Commit> {
    vec![
        commit("a0a0a0a0a0a0a0a0a0a0a0a0a0a0a0a0a0a0a0a0", "2017-05-29", true),
        commit("a1a1a1a1a1a1a1a1a1a1a1a1a1a1a1a1a1a1a1a1", "2018-11-17", true),
        commit("a2a2a2a2a2a2a2a2a2a2a2a2a2a2a2a2a2a2a2a2", "2020-11-21", true),
        commit("967d40bec14be87262b21ab901dbace23b7365db", "2021-07-18", true),
        commit("a4a4a4a4a4a4a4a4a4a4a4a4a4a4a4a4a4a4a4a4", "2023-11-26", true),
        commit("a5a5a5a5a5a5a5a5a5a5a5a5a5a5a5a5a5a5a5a5", "2025-10-15", false),
        commit("a6a6a6a6a6a6a6a6a6a6a6a6a6a6a6a6a6a6a6a6", "2026-08-10", false),
    ]
}

fn run(version: &str, first: i64, last: Option<i64>) -> Run {
    Run::closed(version.to_string(), first, last, 6)
}

fn index() -> Index {
    let mut runs: StringMap<Vec<Run>> = StringMap::new();
    runs.insert(
        "python3".to_string(),
        vec![
            run("3.6.1", 0, Some(0)),
            run("3.6.7", 1, Some(1)),
            run("3.8.6", 2, Some(2)),
            run("3.8.9", 3, Some(3)),
            run("3.10.2", 4, None),
        ],
    );
    runs.insert(
        "nodejs".to_string(),
        vec![run("14.15.0", 2, Some(2)), run("14.17.3", 3, Some(3)), run("20.1.0", 5, None)],
    );
    runs.insert("ripgrep".to_string(), vec![run("13.0.0", 3, Some(3)), run("14.0.1", 4, None)]);
    runs.insert("gone".to_string(), vec![run("1.0", 0, Some(2))]);
    runs.insert("late".to_string(), vec![run("2.0", 2, Some(3))]);
    runs.insert("split".to_string(), vec![run("1.0", 0, Some(0)), run("1.1", 3, Some(3))]);
    runs.insert("edge".to_string(), vec![run("9", 5, None)]);
    Index::new(commits(), 6, runs).unwrap()
}

fn specs(texts: &[&str]) -> Vec<String> {
    texts.iter().map(|t| t.to_string()).collect()
}

fn solution(texts: &[&str]) -> Solution {
    match solve(&index(), &specs(texts)).unwrap() {
        Answer::Satisfiable(solution) => solution,
        Answer::Unsatisfiable(_) => panic!("no solution"),
    }
}

fn conflict(texts: &[&str]) -> Conflict {
    match solve(&index(), &specs(texts)).unwrap() {
        Answer::Satisfiable(_) => panic!("a solution"),
        Answer::Unsatisfiable(conflict) => conflict,
    }
}

fn failure(texts: &[&str]) -> String {
    match solve(&index(), &specs(texts)) {
        Ok(_) => panic!("an answer"),
        Err(e) => e.message("multiverse.lock"),
    }
}

/// A satisfiable pair, an impossible one, and a prefix that must not be
/// satisfied by a longer component.
#[test]
fn solves_and_proves_unsatisfiable() {
    let solved = solution(&["python3@3.8", "nodejs@14"]);
    assert!(solved.revisions > 0);

    let answer = conflict(&["python3@3.6", "ripgrep@14"]);
    assert!(answer.disjoint.is_some());

    let answer = conflict(&["python3@3.1"]);
    assert!(answer.disjoint.is_none());
}

#[test]
fn tells_the_whole_solution() {
    let solved = solution(&["python3@3.8", "nodejs@14"]);
    assert_eq!(solved.revisions, 2);
    assert_eq!(solved.spans, [(2, 3)]);
    assert_eq!(solved.first.off, 2);
    assert_eq!(solved.last.off, 3);
    assert_eq!(solved.last.label, "2021-07-18-967d40bec14b");
    assert_eq!(
        solved.versions,
        [
            ("python3".to_string(), "3.8.9".to_string()),
            ("nodejs".to_string(), "14.17.3".to_string())
        ]
    );
    assert_eq!(solved.headline(), "2 revisions · 2020-11-21 .. 2021-07-18");
    let newest = solved.newest().unwrap();
    assert_eq!(newest.before, "newest: ");
    assert_eq!(newest.marked, "967d40bec14b");
    assert_eq!(newest.after, " (2021-07-18)");
    assert_eq!(
        solved.flake_input(),
        "  inputs.nixpkgs.url = \"github:NixOS/nixpkgs/967d40bec14be87262b21ab901dbace23b7365db\";"
    );
}

#[test]
fn says_which_two_never_overlapped() {
    let answer = conflict(&["python3@3.6", "ripgrep@14"]);
    assert_eq!(answer.outcome(), "no revision ever had both");
    assert_eq!(
        answer.reason().as_deref(),
        Some("  python3 3.6.x and ripgrep 14.x never overlapped")
    );
    assert_eq!(answer.disjoint, Some((0, 1)));
    let python = &answer.reports[0];
    assert_eq!(python.described, "python3 3.6.x");
    assert_eq!(python.range(), ("2017-05-29".to_string(), "2018-11-17".to_string()));
    assert_eq!(python.revisions, 2);
    let ripgrep = &answer.reports[1];
    assert_eq!(ripgrep.range(), ("2023-11-26".to_string(), "current".to_string()));
    assert!(ripgrep.current);
}

/// The first pair without overlap is named, also where a later constraint is
/// part of another such pair.
#[test]
fn names_the_first_disjoint_pair() {
    let answer = conflict(&["gone", "ripgrep", "late@2", "edge"]);
    assert_eq!(answer.disjoint, Some((0, 1)));
    assert_eq!(answer.outcome(), "no revision ever had all of these");
    let answer = conflict(&["late", "gone", "edge", "python3"]);
    assert_eq!(answer.disjoint, Some((0, 2)));
}

/// Three constraints can have nothing in common though each two overlap.
#[test]
fn names_no_pair_where_each_two_overlap() {
    let answer = conflict(&["gone", "late", "split"]);
    assert_eq!(answer.disjoint, None);
    assert_eq!(answer.reason(), None);
    assert_eq!(answer.culprits(), None);
}

#[test]
fn reports_what_never_existed() {
    let answer = conflict(&["python3@3.1"]);
    assert_eq!(answer.outcome(), "no revision ever had python3 3.1.x");
    assert_eq!(answer.reports[0].range(), ("never existed".to_string(), String::new()));
    assert_eq!(answer.reports[0].revisions, 0);
    assert!(!answer.reports[0].current);
}

#[test]
fn one_more_constraint_narrows() {
    assert_eq!(solution(&["python3"]).revisions, 6);
    assert_eq!(solution(&["python3", "ripgrep"]).revisions, 3);
    assert_eq!(solution(&["python3", "ripgrep", "nodejs"]).spans, [(3, 3), (5, 5)]);
}

#[test]
fn refuses_what_is_not_a_question() {
    assert_eq!(failure(&[]), "give at least one constraint, e.g. python3@3.8");
    assert_eq!(
        failure(&["definitely-not-a-package"]),
        "definitely-not-a-package is not in the index, so nothing can satisfy it."
    );
    assert_eq!(failure(&["absent", "@1"]), "@1 has no attribute before the @");
    assert_eq!(
        failure(&["python3", "absent", "missing"]),
        "absent is not in the index, so nothing can satisfy it."
    );
}

#[test]
fn merges_adjacent_versions() {
    let c = Constraint::parse("python3@3.8").unwrap();
    assert_eq!(spans_for(&index(), &c).unwrap(), [(2, 3)]);
    let c = Constraint::parse("nodejs").unwrap();
    assert_eq!(spans_for(&index(), &c).unwrap(), [(2, 3), (5, 5)]);
    let c = Constraint::parse("python3@9").unwrap();
    assert_eq!(spans_for(&index(), &c).unwrap(), []);
}

#[test]
fn walks_back_over_what_cannot_be_fetched() {
    assert_eq!(newest_pinnable(&index(), &[(0, 1), (4, 5)]).unwrap(), 4);
    assert_eq!(newest_pinnable(&index(), &[(0, 1), (5, 6)]).unwrap(), 1);
    let e = newest_pinnable(&index(), &[(5, 6)]).unwrap_err();
    assert_eq!(
        e.message("multiverse.lock"),
        "every revision satisfying this has no narHash yet, so none of them can be fetched. Run tools/add-narhashes.sh, or wait for the next index build."
    );
}

#[test]
fn knows_what_a_revision_shipped() {
    assert_eq!(version_at(&index(), "python3", 3).as_deref(), Some("3.8.9"));
    assert_eq!(version_at(&index(), "nodejs", 4), None);
    let cs = vec![Constraint::parse("nodejs").unwrap(), Constraint::parse("python3@3").unwrap()];
    assert_eq!(
        versions_at(&index(), &cs, 4),
        [
            ("nodejs".to_string(), "?".to_string()),
            ("python3".to_string(), "3.10.2".to_string())
        ]
    );
}

#[test]
fn pins_the_newest_that_can_be_fetched() {
    let pin = pin_for(&index(), &Constraint::parse("python3").unwrap()).unwrap();
    assert_eq!(pin.label, "2023-11-26-a4a4a4a4a4a4");
    assert_eq!(pin.version, "3.10.2");
    assert_eq!(pin.constraint, None);
    let pin = pin_for(&index(), &Constraint::parse("nodejs").unwrap()).unwrap();
    assert_eq!(pin.version, "14.17.3");
    assert!(matches!(
        pin_for(&index(), &Constraint::parse("edge").unwrap()),
        Err(Failure::NotFetchable)
    ));
    let e = pin_for(&index(), &Constraint::parse("python3@3.1").unwrap()).unwrap_err();
    assert_eq!(e.message("multiverse.lock"), "no revision ever had python3 3.1.x");
}

#[test]
fn finds_revisions_by_prefix() {
    let index = index();
    assert_eq!(index.revision_by_prefix("967d").unwrap().off, 3);
    assert_eq!(index.revision_by_prefix("a").unwrap().off, 6);
    assert!(index.revision_by_prefix("ffff").is_none());
    assert_eq!(index.covered_tip(), 5);
    assert!(index.revision(7).is_none());
    assert!(index.revision(-1).is_none());
    assert_eq!(index.revision(3).unwrap().date, "2021-07-18");
}

#[test]
fn refuses_an_index_that_does_not_fit() {
    let mut runs: StringMap<Vec<Run>> = StringMap::new();
    runs.insert("b".to_string(), vec![run("1", 0, Some(6))]);
    runs.insert("a".to_string(), vec![run("1", 0, Some(5))]);
    let e = Index::new(commits(), 6, runs).unwrap_err();
    assert!(matches!(&e, Failure::RunOutOfRange { attr } if attr == "b"));
    assert_eq!(
        e.message("multiverse.lock"),
        "a run of b lies outside the revisions of the index"
    );
    let e = Index::new(commits(), 8, StringMap::new()).unwrap_err();
    assert_eq!(
        e.message("multiverse.lock"),
        "the index covers more revisions than it holds"
    );
    assert!(Commit::labelled("short".to_string(), "2020-01-01".to_string(), None).is_none());
}

#[test]
fn collects_where_a_version_can_be_had() {
    let target = target_for(&index(), Constraint::parse("python3@3.8").unwrap()).unwrap();
    assert_eq!(target.constraint.attr, "python3");
    assert_eq!(target.version, "3.8.9");
    assert_eq!(target.spans, [(3, 3)]);
    assert_eq!(target.candidates, [3]);

    let target = target_for(&index(), Constraint::parse("ripgrep").unwrap()).unwrap();
    assert_eq!(target.version, "14.0.1");
    assert_eq!(target.spans, [(4, 5)]);
    assert_eq!(target.candidates, [4]);

    assert!(matches!(
        target_for(&index(), Constraint::parse("absent").unwrap()),
        Err(Failure::NotIndexed { attr }) if attr == "absent"
    ));
}
