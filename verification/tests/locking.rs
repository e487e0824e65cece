//! Locks: reading and writing them, and what every change does.

use mvs::constraint::Constraint;
use mvs::edit::{add, remove, sharing, unpinned, update, wanted, Added, Moved};
use mvs::error::Failure;
use mvs::index::{Commit, Index, Run};
use mvs::lock::{footprint, list, lock_path, terminated, Lock, LockFile, LOCK_FILE, LOCK_VERSION};
use mvs::map::StringMap;
use mvs::pin::{pin_for, Pin};
use mvs::status::{newer_versions, status, Standing};

/// A version old enough to be settled, and the commit that last shipped it.
const OLD_RIPGREP: &str = "13.0.0";
const OLD_RIPGREP_REV: &str = "7c6e3666e2040fb64d43b209b84f65898ea3095d";

/// The newest revision at which ripgrep 13.0.0, fd 8.7.0 and jq 1.6 were all
/// current, jq 1.6's last sighting.
const SHARED_REV: &str = "6500b4580c2a1f3d0f980d32d285739d8e156d92";
const SHARED_LABEL: &str = "2023-09-25-6500b4580c2a";

fn commit(rev: &str, date: &str, fetchable: bool) -> Commit {
    let hash = if fetchable { Some("sha256-0".to_string()) } else { None };
    Commit::labelled(rev.to_string(), date.to_string(), hash).unwrap()
}

fn run(version: &str, first: i64, last: Option<i64>) -> Run {
    Run::closed(version.to_string(), first, last, 6)
}

fn index() -> Index {
    let commits = vec![
        commit("b0b0b0b0b0b0b0b0b0b0b0b0b0b0b0b0b0b0b0b0", "2022-03-14", true),
        commit("b1b1b1b1b1b1b1b1b1b1b1b1b1b1b1b1b1b1b1b1", "2023-06-01", true),
        commit(SHARED_REV, "2023-09-25", true),
        commit(OLD_RIPGREP_REV, "2023-11-29", true),
        commit("b4b4b4b4b4b4b4b4b4b4b4b4b4b4b4b4b4b4b4b4", "2024-02-09", true),
        commit("2fcb964de67fcf60b43471c55d5d99e61a9ccb5a", "2026-08-10", true),
    ];
    let mut runs: StringMap<Vec<Run>> = StringMap::new();
    runs.insert(
        "ripgrep".to_string(),
        vec![
            run("13.0.0", 0, Some(3)),
            run("14.1.0", 4, Some(4)),
            run("14.1.1", 5, None),
        ],
    );
    runs.insert("jq".to_string(), vec![run("1.6", 0, Some(2)), run("1.7.1", 3, None)]);
    runs.insert(
        "fd".to_string(),
        vec![run("8.3.1", 0, Some(0)), run("8.7.0", 1, Some(3)), run("9.0.0", 4, None)],
    );
    runs.insert(
        "helix".to_string(),
        vec![
            run("23.05", 1, Some(2)),
            run("23.10", 3, Some(3)),
            run("25.01.1", 4, Some(4)),
            run("25.07.1", 5, None),
        ],
    );
    Index::new(commits, 6, runs).unwrap()
}

fn specs(texts: &[&str]) -> Vec<String> {
    texts.iter().map(|t| t.to_string()).collect()
}

fn added(lock: &mut Lock, texts: &[&str]) -> Vec<Added> {
    add(&index(), lock, &specs(texts)).unwrap()
}

fn locked(texts: &[&str]) -> Lock {
    let mut lock = Lock::empty();
    added(&mut lock, texts);
    lock
}

fn moved(lock: &mut Lock, attr: Option<&str>, all: bool) -> Vec<Moved> {
    update(&index(), lock, attr, all).unwrap()
}

fn rev<'a>(lock: &'a Lock, attr: &str) -> &'a str {
    lock.pins.get(attr).unwrap().rev.as_str()
}

fn version<'a>(lock: &'a Lock, attr: &str) -> &'a str {
    lock.pins.get(attr).unwrap().version.as_str()
}

fn shown(line: mvs::output::Line) -> String {
    format!("{}{}{}", line.before, line.marked, line.after)
}

/// A lock file as text.
fn rendered(file: &LockFile) -> String {
    let mut pins = serde_json::Map::new();
    for (attr, pin) in &file.pins {
        let mut fields = serde_json::Map::new();
        let texts = [
            ("rev", &pin.rev),
            ("label", &pin.label),
            ("version", &pin.version),
            ("date", &pin.date),
        ];
        for (name, text) in texts {
            fields.insert(name.to_string(), serde_json::Value::String(text.clone()));
        }
        if let Some(constraint) = &pin.constraint {
            let value = serde_json::Value::String(constraint.clone());
            fields.insert("constraint".to_string(), value);
        }
        pins.insert(attr.clone(), serde_json::Value::Object(fields));
    }
    let mut lock = serde_json::Map::new();
    lock.insert("version".to_string(), serde_json::Value::from(file.version));
    lock.insert("pins".to_string(), serde_json::Value::Object(pins));
    terminated(serde_json::to_string_pretty(&serde_json::Value::Object(lock)).unwrap())
}

/// The lock file that a text holds.
fn parsed(text: &str) -> LockFile {
    let value: serde_json::Value = serde_json::from_str(text).unwrap();
    let mut pins = Vec::new();
    for (attr, pin) in value["pins"].as_object().unwrap() {
        let field = |name: &str| pin[name].as_str().map(|s| s.to_string());
        pins.push((
            attr.clone(),
            Pin {
                rev: field("rev").unwrap(),
                label: field("label").unwrap(),
                version: field("version").unwrap(),
                date: field("date").unwrap(),
                constraint: field("constraint"),
            },
        ));
    }
    LockFile { version: value["version"].as_u64().unwrap() as u32, pins }
}

/// The file format, which is a committed artifact and so has to survive a round
/// trip: reads back what it wrote, keeps pins sorted by attribute, and omits
/// `constraint` entirely when there is none.
#[test]
fn round_trips_the_lock_file() {
    let mut lock = Lock::empty();
    lock.pins.insert(
        "ripgrep".to_string(),
        Pin {
            rev: "7c6e3666e2040fb64d43b209b84f65898ea3095d".to_string(),
            label: "2023-11-29-7c6e3666e204".to_string(),
            version: "13.0.0".to_string(),
            date: "2023-11-29".to_string(),
            constraint: Some("13".to_string()),
        },
    );
    lock.pins.insert(
        "helix".to_string(),
        Pin {
            rev: "2fcb964de67fcf60b43471c55d5d99e61a9ccb5a".to_string(),
            label: "2026-08-10-2fcb964de67f".to_string(),
            version: "25.07.1".to_string(),
            date: "2026-08-10".to_string(),
            constraint: None,
        },
    );
    let text = rendered(&lock.write());

    assert!(text.ends_with('\n'), "a committed file ends with a newline");
    assert!(!text.contains("\"constraint\": null"), "{text}");
    // helix was inserted second and must still come first on disk.
    assert!(text.find("helix") < text.find("ripgrep"));

    let read = Lock::read(Some(parsed(&text))).unwrap();
    assert_eq!(read.pins.len(), 2);
    assert_eq!(read.pins.get("ripgrep").unwrap().constraint.as_deref(), Some("13"));
    assert_eq!(read.pins.get("helix").unwrap().constraint, None);
    assert_eq!(rendered(&read.write()), text);
}

/// Absent and unreadable lock files. A missing one is an empty lock, since
/// adding has to work in a directory that has none; a future format version is
/// an error rather than a guess.
#[test]
fn handles_missing_and_future_files() {
    assert!(Lock::read(None).unwrap().pins.len() == 0);

    let err = match Lock::read(Some(parsed(r#"{"version": 99, "pins": {}}"#))) {
        Err(err) => err.message("multiverse.lock"),
        Ok(_) => panic!("a future lock version was accepted"),
    };
    assert!(err.contains("version 99"), "{err}");
    assert_eq!(
        err,
        "multiverse.lock is version 99, and this mvs understands version 1. Update multiverse."
    );
}

#[test]
fn writes_pins_in_order_of_attribute() {
    let file = locked(&["ripgrep", "fd", "jq"]).write();
    assert_eq!(file.version, LOCK_VERSION);
    let attrs: Vec<&str> = file.pins.iter().map(|p| p.0.as_str()).collect();
    assert_eq!(attrs, ["fd", "jq", "ripgrep"]);
}

#[test]
fn finds_the_lock_file() {
    assert_eq!(lock_path(None), LOCK_FILE);
    assert_eq!(lock_path(None), "multiverse.lock");
    assert_eq!(lock_path(Some("other/my.lock")), "other/my.lock");
}

/// Add, list, update a pin that is already newest, and remove.
#[test]
fn locks_pins() {
    let mut lock = Lock::empty();
    added(&mut lock, &[&format!("ripgrep@{OLD_RIPGREP}")]);
    assert_eq!(rev(&lock, "ripgrep"), OLD_RIPGREP_REV);
    assert_eq!(version(&lock, "ripgrep"), OLD_RIPGREP);
    // The constraint is stored, or update would walk this pin off 13.x.
    assert_eq!(lock.pins.get("ripgrep").unwrap().constraint.as_deref(), Some("13.0.0"));

    // A pin already at the newest revision satisfying it does not move.
    assert_eq!(moved(&mut lock, Some("ripgrep"), false).len(), 0);

    let standings = status(&index(), &lock).unwrap();
    assert_eq!(standings[0].versions_behind, 0);

    let pin = remove(&mut lock, "ripgrep").unwrap();
    assert_eq!(
        unpinned("ripgrep", &pin),
        "unpinned ripgrep (was 13.0.0 at 2023-11-29-7c6e3666e204)"
    );
    assert_eq!(lock.pins.len(), 0);

    // Removing what is not pinned is an error rather than a silent no-op.
    let e = remove(&mut lock, "ripgrep").unwrap_err();
    assert_eq!(e.message("multiverse.lock"), "ripgrep is not pinned in multiverse.lock");
}

/// Pins that can share a revision do: several specs in one add, a later add
/// joining the lock's existing revision, and a plan that is stable under its
/// own output.
#[test]
fn locks_share_revisions() {
    let mut lock = Lock::empty();
    // Added together, ripgrep 13.0.0 and jq 1.6 land on one revision, the
    // newest where both lifetimes still overlap, with each still resolving to
    // exactly the version it asked for.
    added(&mut lock, &[&format!("ripgrep@{OLD_RIPGREP}"), "jq@1.6"]);
    assert_eq!(version(&lock, "ripgrep"), OLD_RIPGREP);
    assert_eq!(version(&lock, "jq"), "1.6");
    assert_eq!(rev(&lock, "ripgrep"), SHARED_REV);
    assert_eq!(rev(&lock, "jq"), SHARED_REV);

    // A pin added later joins a revision the lock already pays for, not the
    // newest revision carrying its version.
    added(&mut lock, &["fd@8.7.0"]);
    assert_eq!(version(&lock, "fd"), "8.7.0");
    assert_eq!(rev(&lock, "fd"), SHARED_REV);

    // The plan is stable under its own output: nothing left to move.
    assert_eq!(moved(&mut lock, None, true).len(), 0);
}

/// A lock built one pin at a time scatters, since each add can only share with
/// what is already there, and update pulls it back together: the named pin
/// moves onto a revision the untouched pins already pay for, same version.
#[test]
fn update_consolidates_revisions() {
    let mut lock = Lock::empty();
    // Alone, ripgrep pins to 13.0.0's newest sighting; jq 1.6 ended earlier,
    // so its add cannot share and the lock holds two revisions.
    added(&mut lock, &[&format!("ripgrep@{OLD_RIPGREP}")]);
    added(&mut lock, &["jq@1.6"]);
    assert_eq!(rev(&lock, "ripgrep"), OLD_RIPGREP_REV);
    assert_eq!(rev(&lock, "jq"), SHARED_REV);

    // Updating ripgrep keeps its version, since 13.0.0 is the newest 13.0.0
    // there is, and moves it onto jq's revision, which carries it too.
    let moves = moved(&mut lock, Some("ripgrep"), false);
    assert_eq!(moves.len(), 1);
    assert_eq!(moves[0].attr, "ripgrep");
    assert_eq!(moves[0].from_version, OLD_RIPGREP);
    assert_eq!(moves[0].to_version, OLD_RIPGREP);
    assert_eq!(moves[0].to_label, SHARED_LABEL);

    assert_eq!(rev(&lock, "ripgrep"), SHARED_REV);
    assert_eq!(rev(&lock, "jq"), SHARED_REV);
    assert_eq!(
        shown(moves[0].line()),
        "ripgrep: 13.0.0 · 2023-11-29-7c6e3666e204 → 2023-09-25-6500b4580c2a"
    );
}

#[test]
fn says_what_was_pinned() {
    let mut lock = Lock::empty();
    let lines: Vec<String> = added(&mut lock, &["ripgrep@13.0.0", "jq@1.6"])
        .iter()
        .map(|a| shown(a.line()))
        .collect();
    assert_eq!(
        lines,
        [
            "pinned jq 1.6 at 2023-09-25-6500b4580c2a (with ripgrep)",
            "pinned ripgrep 13.0.0 at 2023-09-25-6500b4580c2a (with jq)"
        ]
    );
    assert_eq!(footprint(&lock).as_deref(), Some("lock: 2 pins on 1 revision"));

    let lines: Vec<String> = added(&mut lock, &["helix", "jq"]).iter().map(|a| shown(a.line())).collect();
    assert_eq!(
        lines,
        [
            "pinned helix 25.07.1 at 2026-08-10-2fcb964de67f (with jq)",
            "repinned jq 1.7.1 at 2026-08-10-2fcb964de67f (with helix)"
        ]
    );
    assert_eq!(footprint(&lock).as_deref(), Some("lock: 3 pins on 2 revisions"));
}

#[test]
fn leaves_the_footprint_out_for_one_pin() {
    assert_eq!(footprint(&Lock::empty()), None);
    let lock = locked(&["jq"]);
    assert_eq!(footprint(&lock), None);
    assert_eq!(shown(added(&mut Lock::empty(), &["jq"])[0].line()), "pinned jq 1.7.1 at 2026-08-10-2fcb964de67f");
}

#[test]
fn lists_who_shares() {
    let lock = locked(&["ripgrep@13.0.0", "jq@1.6", "fd@8.7"]);
    assert_eq!(sharing(&lock, "jq", SHARED_REV), ["fd", "ripgrep"]);
    assert_eq!(sharing(&lock, "absent", SHARED_REV), ["fd", "jq", "ripgrep"]);
    assert_eq!(sharing(&lock, "jq", OLD_RIPGREP_REV), Vec::<String>::new());
}

#[test]
fn update_moves_only_what_it_names() {
    let mut lock = Lock::empty();
    for (attr, at, version) in [("helix", 4, "25.01.1"), ("fd", 0, "8.3.1")] {
        let revision = index().revision(at).unwrap();
        lock.pins.insert(
            attr.to_string(),
            Pin {
                rev: revision.rev,
                label: revision.label,
                version: version.to_string(),
                date: revision.date,
                constraint: None,
            },
        );
    }
    let moves = moved(&mut lock, Some("helix"), false);
    assert_eq!(moves.len(), 1);
    assert_eq!(
        shown(moves[0].line()),
        "helix: 25.01.1 → 25.07.1  (2026-08-10-2fcb964de67f)"
    );
    assert_eq!(version(&lock, "fd"), "8.3.1");
    assert_eq!(rev(&lock, "fd"), "b0b0b0b0b0b0b0b0b0b0b0b0b0b0b0b0b0b0b0b0");

    // Again: nothing is left to the same update.
    assert_eq!(moved(&mut lock, Some("helix"), false).len(), 0);

    let moves = moved(&mut lock, None, true);
    assert_eq!(moves.len(), 1);
    assert_eq!(moves[0].attr, "fd");
    assert_eq!(version(&lock, "fd"), "9.0.0");
    assert_eq!(moved(&mut lock, None, true).len(), 0);
}

#[test]
fn update_stays_inside_the_constraint() {
    let mut lock = Lock::empty();
    let revision = index().revision(0).unwrap();
    lock.pins.insert(
        "ripgrep".to_string(),
        Pin {
            rev: revision.rev,
            label: revision.label,
            version: "13.0.0".to_string(),
            date: revision.date,
            constraint: Some("13".to_string()),
        },
    );
    assert_eq!(moved(&mut lock, None, true).len(), 1);
    assert_eq!(version(&lock, "ripgrep"), "13.0.0");
    assert_eq!(rev(&lock, "ripgrep"), OLD_RIPGREP_REV);
    assert_eq!(lock.pins.get("ripgrep").unwrap().constraint.as_deref(), Some("13"));
}

#[test]
fn update_refuses_what_it_cannot_move() {
    let index = index();
    let message = |lock: &mut Lock, attr: Option<&str>, all: bool| -> String {
        match update(&index, lock, attr, all) {
            Ok(_) => panic!("an update"),
            Err(e) => e.message("my.lock"),
        }
    };
    let mut lock = Lock::empty();
    assert_eq!(message(&mut lock, None, true), "my.lock has no pins");
    assert_eq!(message(&mut lock, Some("jq"), false), "my.lock has no pins");
    let mut lock = locked(&["jq"]);
    assert_eq!(message(&mut lock, Some("fd"), true), "fd is not pinned in my.lock");
    assert_eq!(
        message(&mut lock, None, false),
        "name a package to update, or pass --all to move every pin"
    );
    let pin = lock.pins.get("jq").unwrap().clone();
    lock.pins.insert("absent".to_string(), pin);
    assert_eq!(
        message(&mut lock, None, true),
        "absent is not in the index, so nothing can satisfy it."
    );
    assert_eq!(rev(&lock, "jq"), "2fcb964de67fcf60b43471c55d5d99e61a9ccb5a");
}

#[test]
fn add_refuses_and_leaves_the_lock() {
    let index = index();
    let mut lock = locked(&["jq@1.6"]);
    let e = add(&index, &mut lock, &specs(&["fd", "fd@8"])).unwrap_err();
    assert!(matches!(&e, Failure::GivenTwice { attr } if attr == "fd"));
    assert_eq!(e.message("multiverse.lock"), "fd is given more than once");
    let e = add(&index, &mut lock, &specs(&["fd", "ripgrep@12"])).unwrap_err();
    assert_eq!(e.message("multiverse.lock"), "no revision ever had ripgrep 12.x");
    let e = add(&index, &mut lock, &specs(&["absent", "fd@"])).unwrap_err();
    assert!(matches!(&e, Failure::NoVersion { attr } if attr == "fd"));
    assert_eq!(lock.pins.len(), 1);
    assert_eq!(version(&lock, "jq"), "1.6");
    assert_eq!(wanted(&specs(&["fd", "jq@1"])).unwrap().len(), 2);
}

#[test]
fn adding_then_removing_restores() {
    let mut lock = locked(&["ripgrep@13", "jq@1.6"]);
    let text = rendered(&lock.write());
    added(&mut lock, &["helix"]);
    assert_ne!(rendered(&lock.write()), text);
    remove(&mut lock, "helix").unwrap();
    assert_eq!(rendered(&lock.write()), text);
}

#[test]
fn a_lone_pin_is_what_the_constraint_resolves_to() {
    for spec in ["ripgrep", "ripgrep@13", "jq@1.6", "fd@8", "helix@23"] {
        let alone = pin_for(&index(), &Constraint::parse(spec).unwrap()).unwrap();
        let lock = locked(&[spec]);
        let (_, pin) = &lock.pins.entries()[0];
        assert_eq!(pin.rev, alone.rev);
        assert_eq!(pin.version, alone.version);
    }
}

#[test]
fn sharing_keeps_the_lone_version() {
    let texts = ["ripgrep@13", "jq@1.6", "fd@8", "helix"];
    let lock = locked(&texts);
    for spec in texts {
        let c = Constraint::parse(spec).unwrap();
        let alone = pin_for(&index(), &c).unwrap();
        assert_eq!(version(&lock, &c.attr), alone.version);
    }
}

#[test]
fn added_together_has_nothing_to_move() {
    let mut lock = locked(&["ripgrep@13", "helix", "jq@1.6", "fd@8"]);
    assert_eq!(moved(&mut lock, None, true).len(), 0);
}

#[test]
fn a_pin_the_index_does_not_know_is_not_shared_with() {
    let mut lock = Lock::empty();
    lock.pins.insert(
        "helix".to_string(),
        Pin {
            rev: "ffffffffffffffffffffffffffffffffffffffff".to_string(),
            label: "2027-01-01-ffffffffffff".to_string(),
            version: "27.01".to_string(),
            date: "2027-01-01".to_string(),
            constraint: None,
        },
    );
    added(&mut lock, &["jq@1.6"]);
    assert_eq!(rev(&lock, "jq"), SHARED_REV);
    assert_eq!(rev(&lock, "helix"), "ffffffffffffffffffffffffffffffffffffffff");
}

#[test]
fn lists_the_pins() {
    let rows = list(&locked(&["ripgrep@13.0.0", "helix"]));
    let shown: Vec<[&str; 4]> = rows
        .iter()
        .map(|r| [r.attr.as_str(), r.version.as_str(), r.date.as_str(), r.revision.as_str()])
        .collect();
    assert_eq!(
        shown,
        [
            ["helix", "25.07.1", "2026-08-10", "2fcb964de67f"],
            ["ripgrep", "13.0.0", "2023-11-29", "7c6e3666e204"]
        ]
    );
    assert_eq!(list(&Lock::empty()).len(), 0);
}

fn helix_at(at: i64, version: &str, constraint: Option<&str>) -> Lock {
    let revision = index().revision(at).unwrap();
    let mut lock = Lock::empty();
    lock.pins.insert(
        "helix".to_string(),
        Pin {
            rev: revision.rev,
            label: revision.label,
            version: version.to_string(),
            date: revision.date,
            constraint: constraint.map(|c| c.to_string()),
        },
    );
    lock
}

fn helix_standing(lock: &Lock) -> Standing {
    status(&index(), lock).unwrap().remove(0)
}

#[test]
fn tells_how_far_behind_a_pin_is() {
    let standing = helix_standing(&helix_at(1, "23.05", None));
    assert_eq!(standing.attr, "helix");
    assert_eq!(standing.latest, "25.07.1");
    assert_eq!(standing.latest_label, "2026-08-10-2fcb964de67f");
    assert_eq!(standing.versions_behind, 3);
    assert_eq!(standing.days_behind, Some(1166));
    assert_eq!(standing.behind(), "3 versions, 1166 days");

    // A pin held inside a prefix is measured inside it.
    let standing = helix_standing(&helix_at(1, "23.05", Some("23")));
    assert_eq!(standing.latest, "23.10");
    assert_eq!(standing.versions_behind, 1);
    assert_eq!(standing.behind(), "1 version, 181 days");

    let standing = helix_standing(&helix_at(5, "25.07.1", None));
    assert_eq!(standing.versions_behind, 0);
    assert_eq!(standing.behind(), "current");
}

#[test]
fn tells_nothing_of_no_pins_and_fails_on_unknown_ones() {
    assert_eq!(status(&index(), &Lock::empty()).unwrap().len(), 0);
    let mut lock = helix_at(1, "23.05", None);
    let pin = lock.pins.get("helix").unwrap().clone();
    lock.pins.insert("absent".to_string(), pin);
    let e = status(&index(), &lock).unwrap_err();
    assert!(matches!(e, Failure::NotIndexed { attr } if attr == "absent"));
}

#[test]
fn a_pin_ahead_of_the_index_is_zero_days_behind() {
    let mut lock = helix_at(5, "24.0", Some("25"));
    let mut pin = lock.pins.get("helix").unwrap().clone();
    pin.date = "2027-01-01".to_string();
    lock.pins.insert("helix".to_string(), pin);
    let standing = helix_standing(&lock);
    assert_eq!(standing.versions_behind, 2);
    assert_eq!(standing.days_behind, Some(-144));
    assert_eq!(standing.behind(), "2 versions, 0 days");
}

#[test]
fn counts_each_newer_version_once() {
    let any = Constraint::parse("x").unwrap();
    let runs = vec![
        run("2.0", 0, Some(0)),
        run("1.5", 1, Some(1)),
        run("2.0", 2, Some(2)),
        run("1.0", 3, Some(3)),
        run("10.0", 4, None),
    ];
    assert_eq!(newer_versions(&runs, &any, "1.0"), ["1.5", "2.0", "10.0"]);
    assert_eq!(newer_versions(&runs, &any, "10.0"), Vec::<String>::new());
    let two = Constraint::parse("x@2").unwrap();
    assert_eq!(newer_versions(&runs, &two, "1.0"), ["2.0"]);
    // Versions that stand level keep their order, so a text can come twice.
    let level = vec![run("1.0", 0, Some(0)), run("1-0", 1, Some(1)), run("1.0", 2, None)];
    assert_eq!(newer_versions(&level, &any, "0.9"), ["1.0", "1-0", "1.0"]);
}
