//! Calendar text: the issue date as "DD Month YYYY" and the three-letter
//! month used in the output path.  The current date itself comes from the
//! system clock through one trusted call.
use vstd::prelude::*;

use chrono::Datelike;

use crate::digits::{digit_str, spec_decimal, spec_digit_char, u64_to_string};

verus! {

/// The clock's date as (year, month, day).
///
/// Relies on chrono's `Local::now` and its `Datelike` accessors `year`,
/// `month` and `day`: the month is within 1..=12 and the day within 1..=31.
/// The year depends on the clock alone, so nothing more is promised of it.
#[verifier::external_body]
fn today_ymd() -> (r: (i32, u8, u8))
    ensures
        1 <= r.1 <= 12,
        1 <= r.2 <= 31,
{
    let now = chrono::offset::Local::now();
    (now.year(), now.month() as u8, now.day() as u8)
}

/// The full name of month `m`.
pub open spec fn spec_month_name(m: int) -> Seq<char> {
    if m == 1 {
        "January"@
    } else if m == 2 {
        "February"@
    } else if m == 3 {
        "March"@
    } else if m == 4 {
        "April"@
    } else if m == 5 {
        "May"@
    } else if m == 6 {
        "June"@
    } else if m == 7 {
        "July"@
    } else if m == 8 {
        "August"@
    } else if m == 9 {
        "September"@
    } else if m == 10 {
        "October"@
    } else if m == 11 {
        "November"@
    } else {
        "December"@
    }
}

/// The three-letter name of month `m`.
pub open spec fn spec_month_abbrev(m: int) -> Seq<char> {
    if m == 1 {
        "Jan"@
    } else if m == 2 {
        "Feb"@
    } else if m == 3 {
        "Mar"@
    } else if m == 4 {
        "Apr"@
    } else if m == 5 {
        "May"@
    } else if m == 6 {
        "Jun"@
    } else if m == 7 {
        "Jul"@
    } else if m == 8 {
        "Aug"@
    } else if m == 9 {
        "Sep"@
    } else if m == 10 {
        "Oct"@
    } else if m == 11 {
        "Nov"@
    } else {
        "Dec"@
    }
}

/// The full month name.
pub fn month_name(m: u8) -> (r: &'static str)
    requires
        1 <= m <= 12,
    ensures
        r@ == spec_month_name(m as int),
{
    if m == 1 {
        "January"
    } else if m == 2 {
        "February"
    } else if m == 3 {
        "March"
    } else if m == 4 {
        "April"
    } else if m == 5 {
        "May"
    } else if m == 6 {
        "June"
    } else if m == 7 {
        "July"
    } else if m == 8 {
        "August"
    } else if m == 9 {
        "September"
    } else if m == 10 {
        "October"
    } else if m == 11 {
        "November"
    } else {
        "December"
    }
}

/// The three-letter month name.
pub fn month_abbrev(m: u8) -> (r: &'static str)
    requires
        1 <= m <= 12,
    ensures
        r@ == spec_month_abbrev(m as int),
{
    if m == 1 {
        "Jan"
    } else if m == 2 {
        "Feb"
    } else if m == 3 {
        "Mar"
    } else if m == 4 {
        "Apr"
    } else if m == 5 {
        "May"
    } else if m == 6 {
        "Jun"
    } else if m == 7 {
        "Jul"
    } else if m == 8 {
        "Aug"
    } else if m == 9 {
        "Sep"
    } else if m == 10 {
        "Oct"
    } else if m == 11 {
        "Nov"
    } else {
        "Dec"
    }
}

/// A year in decimal, negative years with a leading minus.
pub open spec fn spec_year_chars(y: int) -> Seq<char> {
    if y < 0 {
        seq!['-'] + spec_decimal(-y)
    } else {
        spec_decimal(y)
    }
}

/// A day zero-padded to two digits.
pub open spec fn spec_day_chars(d: int) -> Seq<char> {
    if d <= 9 {
        seq!['0', spec_digit_char(d)]
    } else {
        spec_decimal(d)
    }
}

/// The issue-date notation: zero-padded day, full month name, year.
pub open spec fn spec_date_chars(y: int, m: int, d: int) -> Seq<char> {
    spec_day_chars(d) + seq![' '] + spec_month_name(m) + seq![' '] + spec_year_chars(y)
}

/// Renders a year.
pub fn year_string(y: i32) -> (r: String)
    ensures
        r@ == spec_year_chars(y as int),
{
    if y < 0 {
        proof {
            reveal_strlit("-");
        }
        let mut s = "-".to_owned();
        let mag = -(y as i64);
        s.append(u64_to_string(mag as u64).as_str());
        proof {
            assert(s@ =~= spec_year_chars(y as int));
        }
        s
    } else {
        u64_to_string(y as u64)
    }
}

/// The clock's date, as (year, month, day) together with its issue-date
/// notation.
pub fn today() -> (r: ((i32, u8, u8), String))
    ensures
        1 <= r.0.1 <= 12,
        1 <= r.0.2 <= 31,
        r.1@ == spec_date_chars(r.0.0 as int, r.0.1 as int, r.0.2 as int),
{
    let (y, m, d) = today_ymd();
    let text = format_date(y, m, d);
    ((y, m, d), text)
}

/// Renders a date as "DD Month YYYY".
pub fn format_date(y: i32, m: u8, d: u8) -> (r: String)
    requires
        1 <= m <= 12,
        1 <= d <= 31,
    ensures
        r@ == spec_date_chars(y as int, m as int, d as int),
{
    proof {
        reveal_strlit("0");
        reveal_strlit(" ");
    }
    let mut s: String = if d <= 9 {
        let mut z = "0".to_owned();
        z.append(digit_str(d as u64));
        proof {
            assert(z@ =~= spec_day_chars(d as int));
        }
        z
    } else {
        u64_to_string(d as u64)
    };
    s.append(" ");
    s.append(month_name(m));
    s.append(" ");
    s.append(year_string(y).as_str());
    proof {
        assert(" "@ =~= seq![' ']);
        assert(s@ =~= spec_date_chars(y as int, m as int, d as int));
    }
    s
}

} // verus!
