//! Calendar dates written `YYYY-MM-DD`, and the days between them.

use vstd::prelude::*;

use crate::text::characters;

verus! {

/// Whether a year of the Gregorian calendar has a 29th of February.
pub open spec fn is_leap(year: nat) -> bool {
    year % 4 == 0 && (year % 100 != 0 || year % 400 == 0)
}

/// The number of days in a year.
pub open spec fn year_length(year: nat) -> nat {
    if is_leap(year) {
        366
    } else {
        365
    }
}

/// The number of days in a month, where January is 1.
pub open spec fn month_length(year: nat, month: nat) -> nat {
    if month == 2 {
        if is_leap(year) {
            29
        } else {
            28
        }
    } else if month == 4 || month == 6 || month == 9 || month == 11 {
        30
    } else {
        31
    }
}

/// The number of days in all years before this one, counted from year 0.
pub open spec fn days_before_year(year: nat) -> nat
    decreases year,
{
    if year == 0 {
        0
    } else {
        days_before_year((year - 1) as nat) + year_length((year - 1) as nat)
    }
}

/// The number of days in the months of a year before this one.
pub open spec fn days_before_month(year: nat, month: nat) -> nat
    decreases month,
{
    if month <= 1 {
        0
    } else {
        days_before_month(year, (month - 1) as nat) + month_length(year, (month - 1) as nat)
    }
}

/// The place of a date in the sequence of all days.
pub open spec fn day_number(year: nat, month: nat, day: nat) -> nat {
    days_before_year(year) + days_before_month(year, month) + day
}

/// The value of a decimal digit.
pub open spec fn digit_value(c: char) -> nat {
    (c as int - '0' as int) as nat
}

/// The number written by the two digits at a place.
pub open spec fn two_digits(s: Seq<char>, at: int) -> nat {
    10 * digit_value(s[at]) + digit_value(s[at + 1])
}

/// Whether a text has the shape `YYYY-MM-DD`.
pub open spec fn has_date_shape(s: Seq<char>) -> bool {
    &&& s.len() == 10
    &&& crate::text::is_digit(s[0]) && crate::text::is_digit(s[1]) && crate::text::is_digit(s[2]) && crate::text::is_digit(s[3])
    &&& s[4] == '-'
    &&& crate::text::is_digit(s[5]) && crate::text::is_digit(s[6])
    &&& s[7] == '-'
    &&& crate::text::is_digit(s[8]) && crate::text::is_digit(s[9])
}

/// The year of a text of that shape.
pub open spec fn year_of(s: Seq<char>) -> nat {
    100 * two_digits(s, 0) + two_digits(s, 2)
}

/// The month of a text of that shape.
pub open spec fn month_of(s: Seq<char>) -> nat {
    two_digits(s, 5)
}

/// The day of the month of a text of that shape.
pub open spec fn day_of(s: Seq<char>) -> nat {
    two_digits(s, 8)
}

/// Whether a text names a day of the calendar.
pub open spec fn is_date(s: Seq<char>) -> bool {
    &&& has_date_shape(s)
    &&& 1 <= month_of(s) <= 12
    &&& 1 <= day_of(s) <= month_length(year_of(s), month_of(s))
}

/// The place of the day that a text names in the sequence of all days.
pub open spec fn day_number_of(s: Seq<char>) -> nat {
    day_number(year_of(s), month_of(s), day_of(s))
}

proof fn days_before_year_closed(year: nat)
    ensures
        days_before_year(year) == 365 * year + (year + 3) / 4 - (year + 99) / 100 + (year + 399)
            / 400,
    decreases year,
{
    if year > 0 {
        days_before_year_closed((year - 1) as nat);
    }
}

fn leap(year: u32) -> (r: bool)
    ensures
        r == is_leap(year as nat),
{
    year % 4 == 0 && (year % 100 != 0 || year % 400 == 0)
}

fn length_of_month(year: u32, month: u32) -> (r: u32)
    ensures
        r == month_length(year as nat, month as nat),
        r <= 31,
{
    if month == 2 {
        if leap(year) {
            29
        } else {
            28
        }
    } else if month == 4 || month == 6 || month == 9 || month == 11 {
        30
    } else {
        31
    }
}

fn digit_at(chars: &Vec<char>, at: usize) -> (r: Option<u32>)
    requires
        at < chars@.len(),
    ensures
        r is Some <==> crate::text::is_digit(chars@[at as int]),
        r matches Some(v) ==> v == digit_value(chars@[at as int]) && v <= 9,
{
    let c: char = chars[at];
    if '0' <= c && c <= '9' {
        Some(c as u32 - 48)
    } else {
        None
    }
}

fn two_digits_at(chars: &Vec<char>, at: usize) -> (r: Option<u32>)
    requires
        at + 1 < chars.len(),
    ensures
        r is Some <==> crate::text::is_digit(chars@[at as int]) && crate::text::is_digit(chars@[at + 1]),
        r matches Some(v) ==> v == two_digits(chars@, at as int) && v <= 99,
{
    match (digit_at(chars, at), digit_at(chars, at + 1)) {
        (Some(tens), Some(units)) => Some(10 * tens + units),
        _ => None,
    }
}

/// The place of a date in the sequence of all days, or nothing where the text
/// is not a date.
fn day_number_at(date: &str) -> (r: Option<i64>)
    ensures
        r is Some <==> is_date(date@),
        r matches Some(n) ==> n == day_number_of(date@) && n < 4_000_000,
{
    let chars: Vec<char> = characters(date);
    if chars.len() != 10 || chars[4] != '-' || chars[7] != '-' {
        return None;
    }
    match (
        two_digits_at(&chars, 0),
        two_digits_at(&chars, 2),
        two_digits_at(&chars, 5),
        two_digits_at(&chars, 8),
    ) {
        (Some(century), Some(rest), Some(month), Some(day)) => {
            let year: u32 = 100 * century + rest;
            if month < 1 || month > 12 || day < 1 || day > length_of_month(year, month) {
                return None;
            }
            proof {
                days_before_year_closed(year as nat);
            }
            let years: u32 = 365 * year + (year + 3) / 4 - (year + 99) / 100 + (year + 399) / 400;
            let mut months: u32 = 0;
            let mut m: u32 = 1;
            while m < month
                invariant
                    1 <= m <= month <= 12,
                    months == days_before_month(year as nat, m as nat),
                    months <= 31 * (m - 1),
                decreases month - m,
            {
                months = months + length_of_month(year, m);
                m = m + 1;
            }
            Some((years + months + day) as i64)
        },
        _ => None,
    }
}

/// The days from one date to another, negative where the second comes first.
/// Nothing where either text is not a date.
pub fn days_between(from: &str, to: &str) -> (r: Option<i64>)
    ensures
        r is Some <==> is_date(from@) && is_date(to@),
        r matches Some(n) ==> n == day_number_of(to@) - day_number_of(from@),
{
    match (day_number_at(from), day_number_at(to)) {
        (Some(a), Some(b)) => Some(b - a),
        _ => None,
    }
}

/// The day after a date within one month is one day later.
pub proof fn next_day_in_month(year: nat, month: nat, day: nat)
    ensures
        day_number(year, month, day + 1) == day_number(year, month, day) + 1,
{
}

/// The first of a month follows the last of the month before it.
pub proof fn next_month_in_year(year: nat, month: nat)
    requires
        1 <= month < 12,
    ensures
        day_number(year, month + 1, 1) == day_number(year, month, month_length(year, month)) + 1,
{
}

/// The first of January follows the last of December.
pub proof fn next_year(year: nat)
    ensures
        day_number(year + 1, 1, 1) == day_number(year, 12, 31) + 1,
{
    reveal_with_fuel(days_before_month, 13);
}

} // verus!
