//! Constraints and version strings.

use mvs::constraint::Constraint;
use mvs::error::Failure;
use mvs::version::{compare, components, Order};

/// Constraint parsing: attr alone, attr@version, and the two malformed shapes
/// that would otherwise turn into a silent match-everything.
#[test]
fn parses_constraints() {
    let c = Constraint::parse("python3@3.8").unwrap();
    assert_eq!(c.attr, "python3");
    assert_eq!(c.version.as_deref(), Some("3.8"));

    let c = Constraint::parse("ripgrep").unwrap();
    assert_eq!(c.version, None);

    assert!(Constraint::parse("python3@").is_err());
    assert!(Constraint::parse("@3.8").is_err());
}

/// Prefix matching by component, which is what keeps `3.1` from meaning 3.10
/// through 3.13.
#[test]
fn matches_by_component_not_by_string() {
    assert!(mvs::constraint::matches("3.8.9", "3.8"));
    assert!(mvs::constraint::matches("3.8", "3.8"));
    assert!(mvs::constraint::matches("14.1.1", "14"));
    assert!(mvs::constraint::matches("1.12-nightly", "1.12"));

    assert!(!mvs::constraint::matches("3.10.2", "3.1"));
    assert!(!mvs::constraint::matches("3.8", "3.8.9"));
    assert!(!mvs::constraint::matches("140.0", "14"));
}

#[test]
fn refuses_81_for_8() {
    assert!(mvs::constraint::matches("3.8.9", "3.8"));
    assert!(!mvs::constraint::matches("3.81", "3.8"));
    for version in ["3.10", "3.11.4", "3.12", "3.13.1"] {
        assert!(!mvs::constraint::matches(version, "3.1"));
    }
    assert!(mvs::constraint::matches("3.1.5", "3.1"));
}

#[test]
fn empty_prefix_matches_everything() {
    assert!(mvs::constraint::matches("", ""));
    assert!(mvs::constraint::matches("1.2", ""));
    assert!(mvs::constraint::matches("1.2", "."));
    assert!(!mvs::constraint::matches("", "1"));
}

#[test]
fn says_what_is_wrong_with_a_constraint() {
    let e = Constraint::parse("python3@").unwrap_err();
    assert!(matches!(&e, Failure::NoVersion { attr } if attr == "python3"));
    assert_eq!(
        e.message("multiverse.lock"),
        "python3@ has no version after the @. Write python3 for any version, or python3@3.8 for a version."
    );

    let e = Constraint::parse("@3.8").unwrap_err();
    assert!(matches!(&e, Failure::NoAttribute { spec } if spec == "@3.8"));
    assert_eq!(e.message("multiverse.lock"), "@3.8 has no attribute before the @");

    assert!(matches!(Constraint::parse("@"), Err(Failure::NoVersion { attr }) if attr.is_empty()));
    assert!(matches!(Constraint::parse(""), Err(Failure::NoAttribute { spec }) if spec.is_empty()));
}

#[test]
fn splits_at_the_first_at_sign() {
    let c = Constraint::parse("a@b@c").unwrap();
    assert_eq!(c.attr, "a");
    assert_eq!(c.version.as_deref(), Some("b@c"));
}

#[test]
fn describes_a_constraint() {
    assert_eq!(Constraint::parse("python3@3.6").unwrap().describe(), "python3 3.6.x");
    assert_eq!(Constraint::parse("ripgrep").unwrap().describe(), "ripgrep");
}

#[test]
fn parsing_reads_what_was_written() {
    for (attr, version) in [("python3", "3.8"), ("nodejs_20", "20.1-pre"), ("é", "ü")] {
        let c = Constraint::parse(&format!("{attr}@{version}")).unwrap();
        assert_eq!(c.attr, attr);
        assert_eq!(c.version.as_deref(), Some(version));
    }
}

#[test]
fn prefixes_of_prefixes_match() {
    assert!(mvs::constraint::matches("3.8.9", "3.8.9"));
    assert!(mvs::constraint::matches("3.8.9", "3.8"));
    assert!(mvs::constraint::matches("3.8", "3"));
    assert!(mvs::constraint::matches("3.8.9", "3"));
}

#[test]
fn admits_without_a_prefix_anything() {
    let any = Constraint::parse("ripgrep").unwrap();
    assert!(any.admits("14.1.0"));
    assert!(any.admits(""));
    let some = Constraint::parse("ripgrep@13").unwrap();
    assert!(some.admits("13.0.0"));
    assert!(!some.admits("14.1.0"));
    assert_eq!(some.copy().describe(), some.describe());
}

#[test]
fn splits_versions_into_components() {
    assert_eq!(components("1.12pre3"), ["1", "12", "pre", "3"]);
    assert_eq!(components("2.3-rc1"), ["2", "3", "rc", "1"]);
    assert_eq!(components("..-"), Vec::<String>::new());
    assert_eq!(components(""), Vec::<String>::new());
    assert_eq!(components("abc"), ["abc"]);
}

#[test]
fn compares_versions_as_nix_does() {
    assert_eq!(compare("1.0", "2.3"), Order::Less);
    assert_eq!(compare("2.1", "2.3"), Order::Less);
    assert_eq!(compare("2.3", "2.3"), Order::Equal);
    assert_eq!(compare("2.5", "2.3"), Order::Greater);
    assert_eq!(compare("3.1", "2.3"), Order::Greater);
    assert_eq!(compare("2.3.1", "2.3"), Order::Greater);
    assert_eq!(compare("2.3.1", "2.3a"), Order::Greater);
    assert_eq!(compare("2.3pre1", "2.3"), Order::Less);
    assert_eq!(compare("2.3pre3", "2.3pre12"), Order::Less);
    assert_eq!(compare("2.3a", "2.3c"), Order::Less);
    assert_eq!(compare("2.3pre1", "2.3c"), Order::Less);
    assert_eq!(compare("2.3pre1", "2.3q"), Order::Less);
    assert_eq!(compare("3.9.10", "3.10.0"), Order::Less);
}

#[test]
fn compares_numbers_of_any_length() {
    assert_eq!(
        compare("99999999999999999999999", "100000000000000000000000"),
        Order::Less
    );
    assert_eq!(compare("007", "7"), Order::Equal);
    assert_eq!(compare("1.0", "1-0"), Order::Equal);
}

#[test]
fn comparing_the_other_way_round_flips() {
    let versions = ["1.0", "1.0pre", "1.0.1", "1-0", "2", "a", "", "1.0a"];
    for a in versions {
        assert_eq!(compare(a, a), Order::Equal);
        for b in versions {
            let flipped = match compare(a, b) {
                Order::Less => Order::Greater,
                Order::Equal => Order::Equal,
                Order::Greater => Order::Less,
            };
            assert_eq!(compare(b, a), flipped);
            for c in versions {
                if compare(a, b) != Order::Greater && compare(b, c) != Order::Greater {
                    assert_ne!(compare(a, c), Order::Greater);
                }
            }
        }
    }
}
