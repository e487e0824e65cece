//! Dates, counts and the short form of commits.

use mvs::cli::{execute, form, speed, Execute, Format, Speed};
use mvs::date::days_between;
use mvs::map::StringMap;
use mvs::output::{plural, short_rev};
use mvs::text::{before, join, number};

#[test]
fn counts_days_between_dates() {
    assert_eq!(days_between("2026-08-10", "2026-08-10"), Some(0));
    assert_eq!(days_between("2025-07-18", "2025-07-19"), Some(1));
    assert_eq!(days_between("2024-02-28", "2024-03-01"), Some(2));
    assert_eq!(days_between("2023-02-28", "2023-03-01"), Some(1));
    assert_eq!(days_between("1900-02-28", "1900-03-01"), Some(1));
    assert_eq!(days_between("2000-02-28", "2000-03-01"), Some(2));
    assert_eq!(days_between("2023-12-31", "2024-01-01"), Some(1));
    assert_eq!(days_between("2013-10-31", "2026-08-10"), Some(4666));
    assert_eq!(days_between("2026-08-10", "2013-10-31"), Some(-4666));
}

#[test]
fn knows_what_is_not_a_date() {
    assert_eq!(days_between("yesterday", "2026-08-10"), None);
    assert_eq!(days_between("2026-08-10", ""), None);
    assert_eq!(days_between("2026-8-10", "2026-08-10"), None);
}

#[test]
fn counts_with_a_noun() {
    assert_eq!(plural(0, "pin"), "0 pins");
    assert_eq!(plural(1, "pin"), "1 pin");
    assert_eq!(plural(2, "revision"), "2 revisions");
    assert_eq!(plural(110, "revision"), "110 revisions");
}

#[test]
fn writes_numbers() {
    assert_eq!(number(0), "0");
    assert_eq!(number(1234567890), "1234567890");
    assert_eq!(number(18446744073709551615), "18446744073709551615");
}

#[test]
fn shortens_commits() {
    assert_eq!(
        short_rev("967d40bec14be87262b21ab901dbace23b7365db").as_deref(),
        Some("967d40bec14b")
    );
    assert_eq!(short_rev("0123456789ab").as_deref(), Some("0123456789ab"));
    assert_eq!(short_rev("0123456789a"), None);
    assert_eq!(short_rev("ééééééé").as_deref(), Some("éééééé"));
    assert_eq!(short_rev("0123456789aé"), None);
    assert_eq!(short_rev("€€€€x").as_deref(), Some("€€€€"));
    assert_eq!(short_rev("😀😀😀").as_deref(), Some("😀😀😀"));
}

#[test]
fn joins_with_a_separator() {
    assert_eq!(join(&vec![], ", "), "");
    assert_eq!(join(&vec!["jq".to_string()], ", "), "jq");
    assert_eq!(
        join(&vec!["fd".to_string(), "jq".to_string(), "ripgrep".to_string()], ", "),
        "fd, jq, ripgrep"
    );
}

#[test]
fn orders_texts_as_strings_are_ordered() {
    let words = ["", "a", "aa", "ab", "b", "Z", "é", "😀", "\u{e000}", "z"];
    for a in words {
        for b in words {
            assert_eq!(before(a, b), a < b);
        }
    }
}

#[test]
fn maps_keep_their_keys_in_order() {
    let mut map: StringMap<i64> = StringMap::new();
    assert_eq!(map.insert("ripgrep".to_string(), 1), None);
    assert_eq!(map.insert("fd".to_string(), 2), None);
    assert_eq!(map.insert("jq".to_string(), 3), None);
    assert_eq!(map.insert("fd".to_string(), 4), Some(2));
    assert_eq!(map.len(), 3);
    let keys: Vec<&str> = map.entries().iter().map(|e| e.0.as_str()).collect();
    assert_eq!(keys, ["fd", "jq", "ripgrep"]);
    assert_eq!(map.get("fd"), Some(&4));
    assert_eq!(map.get("helix"), None);
    assert!(map.contains_key("jq"));
    assert_eq!(map.remove("jq"), Some(3));
    assert_eq!(map.remove("jq"), None);
    assert_eq!(map.len(), 2);
}

#[test]
fn reads_switches() {
    assert_eq!(form(true), Format::Json);
    assert_eq!(form(false), Format::Human);
    assert_eq!(execute(true), Execute::No);
    assert_eq!(execute(false), Execute::Yes);
    assert_eq!(speed(true), Speed::Eval);
    assert_eq!(speed(false), Speed::Fast);
}
