//! Dates, numbers and short forms, said of the characters they are written with.

use vstd::prelude::*;

use crate::edit::{Added, Moved};
use crate::error::Failure;
use crate::lock::Row;
use crate::pin::PinView;

verus! {

/// The number that one digit stands for.
pub open spec fn worth(c: char) -> int {
    c as int - '0' as int
}

/// How many days a month has in the Gregorian calendar.
pub open spec fn days_in(year: int, month: int) -> int {
    if month == 2 {
        if year % 400 == 0 || (year % 4 == 0 && year % 100 != 0) {
            29
        } else {
            28
        }
    } else if month == 4 || month == 6 || month == 9 || month == 11 {
        30
    } else {
        31
    }
}

/// A text is a date exactly where it is four digits, two and two, with dashes
/// between, and names a day that the month of that year has. Its place among all
/// days is that of the day it names.
pub proof fn dates_are_days_of_the_calendar(s: Seq<char>)
    ensures
        ({
            let digits = forall|k: int|
                0 <= k < 10 && k != 4 && k != 7 ==> 0 <= worth(#[trigger] s[k]) <= 9;
            let year = 1000 * worth(s[0]) + 100 * worth(s[1]) + 10 * worth(s[2]) + worth(s[3]);
            let month = 10 * worth(s[5]) + worth(s[6]);
            let day = 10 * worth(s[8]) + worth(s[9]);
            &&& crate::date::is_date(s) <==> s.len() == 10 && s[4] == '-' && s[7] == '-' && digits
                && 1 <= month <= 12 && 1 <= day <= days_in(year, month)
            &&& crate::date::is_date(s) ==> crate::date::day_number_of(s)
                == crate::date::day_number(year as nat, month as nat, day as nat)
        }),
{
    let digits = forall|k: int|
        0 <= k < 10 && k != 4 && k != 7 ==> 0 <= worth(#[trigger] s[k]) <= 9;
    if digits {
        assert(0 <= worth(s[0]) <= 9 && 0 <= worth(s[1]) <= 9 && 0 <= worth(s[2]) <= 9 && 0
            <= worth(s[3]) <= 9);
        assert(0 <= worth(s[5]) <= 9 && 0 <= worth(s[6]) <= 9);
        assert(0 <= worth(s[8]) <= 9 && 0 <= worth(s[9]) <= 9);
    }
    if crate::date::has_date_shape(s) {
        assert forall|k: int| 0 <= k < 10 && k != 4 && k != 7 implies 0 <= worth(#[trigger] s[k])
            <= 9 by {}
    }
}

/// The last day of each month is followed by the first of the next, and the last
/// day of each year by the first of the next.
pub proof fn days_follow_each_other(year: nat, month: nat, day: nat)
    ensures
        crate::date::day_number(year, month, day + 1) == crate::date::day_number(year, month, day)
            + 1,
        1 <= month < 12 ==> crate::date::day_number(year, month + 1, 1) == crate::date::day_number(
            year,
            month,
            days_in(year as int, month as int) as nat,
        ) + 1,
        crate::date::day_number(year + 1, 1, 1) == crate::date::day_number(year, 12, 31) + 1,
{
    crate::date::next_day_in_month(year, month, day);
    if 1 <= month < 12 {
        crate::date::next_month_in_year(year, month);
    }
    crate::date::next_year(year);
}

/// Numbers are written in decimal: one digit for what is below ten, and behind a
/// number one more digit for ten times as much and that digit.
pub proof fn numbers_are_written_in_decimal(n: nat, d: nat)
    requires
        d < 10,
    ensures
        crate::text::decimal(d).len() == 1,
        worth(crate::text::decimal(d)[0]) == d,
        n > 0 ==> crate::text::decimal(10 * n + d) == crate::text::decimal(n)
            + crate::text::decimal(d),
{
    if n > 0 {
        assert((10 * n + d) / 10 == n && (10 * n + d) % 10 == d) by (nonlinear_arith)
            requires
                d < 10,
        ;
        assert(crate::text::decimal(10 * n + d) =~= crate::text::decimal(n)
            + crate::text::decimal(d));
    }
}

/// A count is the number, a space and the noun, and an `s` unless it is one.
pub proof fn counts_are_written_with_their_noun(n: nat, noun: Seq<char>)
    ensures
        n == 1 ==> crate::output::counted(n, noun) == crate::text::decimal(n).push(' ') + noun,
        n != 1 ==> crate::output::counted(n, noun) == crate::text::decimal(n).push(' ') + noun.push(
            's',
        ),
{
    reveal_strlit(" ");
    reveal_strlit("s");
    assert(n == 1 ==> crate::output::counted(n, noun) =~= crate::text::decimal(n).push(' ') + noun);
    assert(n != 1 ==> crate::output::counted(n, noun) =~= crate::text::decimal(n).push(' ')
        + noun.push('s'));
}

/// A pin that is no version behind is current; any other is so many versions and
/// days behind, where days before the pin count as none.
pub proof fn being_behind_is_told_in_versions_and_days(versions: nat, days: int)
    ensures
        crate::status::behind_of(0, Some(days)) == "current"@,
        versions > 0 && days >= 0 ==> crate::status::behind_of(versions, Some(days))
            == crate::output::counted(versions, "version"@) + ", "@ + crate::output::counted(
            days as nat,
            "day"@,
        ),
        days < 0 ==> crate::status::behind_of(versions, Some(days)) == crate::status::behind_of(
            versions,
            Some(0),
        ),
{
}

/// How many bytes a text takes: none where it is empty, and one to four more for
/// each character, by how far down the table of characters it stands.
pub proof fn characters_take_one_to_four_bytes(s: Seq<char>, c: char)
    ensures
        crate::output::byte_length(Seq::empty()) == 0,
        crate::output::byte_length(s.push(c)) == crate::output::byte_length(s) + if c as int
            <= 0x7f {
            1int
        } else if c as int <= 0x7ff {
            2
        } else if c as int <= 0xffff {
            3
        } else {
            4
        },
{
    assert(s.push(c).drop_last() =~= s);
}

/// The short form of a commit is its beginning that takes twelve bytes, and there
/// is none where no beginning does.
pub proof fn short_forms_take_twelve_bytes(rev: Seq<char>, k: int)
    requires
        0 <= k <= rev.len(),
    ensures
        crate::output::byte_length(rev.take(k)) == 12 <==> crate::output::shortened(rev) == Some(
            rev.take(k),
        ),
        crate::output::shortened(rev) is Some ==> exists|j: int|
            0 <= j <= rev.len() && crate::output::shortened(rev) == Some(#[trigger] rev.take(j))
                && crate::output::byte_length(rev.take(j)) == 12,
{
    if crate::output::byte_length(rev.take(k)) == 12 {
        assert(crate::output::cuts(rev, k, crate::output::SHOWN as nat));
        crate::output::cut_is_shown(rev, k);
    }
    if crate::output::shortened(rev) is Some {
        let j = choose|j: int| crate::output::cuts(rev, j, crate::output::SHOWN as nat);
        assert(crate::output::shortened(rev) == Some(rev.take(j)));
        assert(crate::output::byte_length(rev.take(j)) == 12);
    }
}

/// A lock names exactly the revisions that its pins have.
pub proof fn locks_name_the_revisions_of_their_pins(pins: Map<Seq<char>, PinView>, rev: Seq<char>)
    ensures
        crate::lock::revisions(pins).contains(rev) <==> exists|attr: Seq<char>|
            #[trigger] pins.contains_key(attr) && pins[attr].rev == rev,
        crate::lock::footprint_of(pins) == "lock: "@ + crate::output::counted(
            pins.dom().len(),
            "pin"@,
        ) + " on "@ + crate::output::counted(crate::lock::revisions(pins).len(), "revision"@),
{
}

/// A row of the listing shows the version and date of its pin, and the short form
/// of its revision.
pub proof fn rows_show_their_pin(row: Row, pins: Map<Seq<char>, PinView>)
    requires
        crate::lock::shows(row, pins),
    ensures
        row.version@ == pins[row.attr@].version,
        row.date@ == pins[row.attr@].date,
        crate::output::shortened(pins[row.attr@].rev) == Some(row.revision@),
{
}

/// Texts are joined with the separator between each two.
pub proof fn joining_separates_each_two(parts: Seq<Seq<char>>, last: Seq<char>, between: Seq<char>)
    ensures
        crate::text::separated(Seq::empty(), between) == Seq::<char>::empty(),
        crate::text::separated(seq![last], between) == last,
        parts.len() > 0 ==> crate::text::separated(parts.push(last), between)
            == crate::text::separated(parts, between) + between + last,
{
    assert(parts.push(last).drop_last() =~= parts);
}

/// What is said of a pin that was added, in one line.
pub proof fn additions_are_told_in_a_line(added: Added)
    ensures
        ({
            let line = crate::edit::added_line(added);
            let names = crate::text::texts(added.sharing@);
            &&& added.repinned ==> line.before == "repinned "@ + added.attr@ + " "@
            &&& !added.repinned ==> line.before == "pinned "@ + added.attr@ + " "@
            &&& line.marked == added.pin.version@
            &&& names.len() == 0 ==> line.after == " at "@ + added.pin.label@
            &&& names.len() > 0 ==> line.after == " at "@ + added.pin.label@ + (" (with "@
                + crate::text::separated(names, ", "@) + ")"@)
        }),
{
    let start = " at "@ + added.pin.label@;
    assert(start + Seq::<char>::empty() =~= start);
}

/// What is said of a pin that moved, in one line: from which version to which, or
/// from which revision to which where the version held.
pub proof fn moves_are_told_in_a_line(moved: Moved)
    ensures
        ({
            let line = crate::edit::moved_line(moved);
            let held = moved.from_version@ == moved.to_version@;
            &&& line.marked == moved.to_version@
            &&& held ==> line.before == moved.attr@ + ": "@
            &&& held ==> line.after == " · "@ + moved.from_label@ + " → "@ + moved.to_label@
            &&& !held ==> line.before == moved.attr@ + ": "@ + moved.from_version@ + " → "@
            &&& !held ==> line.after == "  ("@ + moved.to_label@ + ")"@
        }),
{
}

/// A failure is told with what it names: the attribute, the lock file, the
/// version that was found.
pub proof fn failures_are_told_with_what_they_name(name: Seq<char>, file: Seq<char>, found: u32)
    ensures
        crate::error::message_of(Failure::NoVersion { attr: name }, file) == name
            + "@ has no version after the @. Write "@ + name + " for any version, or "@ + name
            + "@3.8 for a version."@,
        crate::error::message_of(Failure::NoAttribute { spec: name }, file) == name
            + " has no attribute before the @"@,
        crate::error::message_of(Failure::NotIndexed { attr: name }, file) == name
            + " is not in the index, so nothing can satisfy it."@,
        crate::error::message_of(Failure::NeverExisted { wanted: name }, file)
            == "no revision ever had "@ + name,
        crate::error::message_of(Failure::GivenTwice { attr: name }, file) == name
            + " is given more than once"@,
        crate::error::message_of(Failure::NotPinned { attr: name }, file) == name
            + " is not pinned in "@ + file,
        crate::error::message_of(Failure::NoPins, file) == file + " has no pins"@,
        crate::error::message_of(Failure::UnknownLockVersion { found }, file) == file
            + " is version "@ + crate::text::decimal(found as nat)
            + ", and this mvs understands version "@ + crate::text::decimal(1)
            + ". Update multiverse."@,
{
}

} // verus!
