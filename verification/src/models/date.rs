//! Calendar dates of the proleptic Gregorian calendar, years 1 to 9999, and
//! the text `YYYY-MM-DD HH:MM` of a moment.

use vstd::prelude::*;

use crate::text::{chars_of, decimal, decimal_string, digit_char, string_of};

verus! {

/// Whether `y` is a leap year.
pub open spec fn is_leap(y: int) -> bool {
    (y % 4 == 0 && y % 100 != 0) || y % 400 == 0
}

/// The number of days of year `y`.
pub open spec fn year_days(y: int) -> int {
    if is_leap(y) {
        366
    } else {
        365
    }
}

/// The number of days of month `m` (1 to 12) of year `y`.
pub open spec fn month_days(y: int, m: int) -> int {
    if m == 2 {
        if is_leap(y) {
            29
        } else {
            28
        }
    } else if m == 4 || m == 6 || m == 9 || m == 11 {
        30
    } else {
        31
    }
}

/// The days from 1 January of year 1 to 1 January of year `y`.
pub open spec fn days_before_year(y: int) -> int {
    365 * (y - 1) + (y - 1) / 4 - (y - 1) / 100 + (y - 1) / 400
}

/// The days of year `y` before the first of month `m`.
pub open spec fn days_before_month(y: int, m: int) -> int
    decreases m,
{
    if m <= 1 {
        0
    } else {
        days_before_month(y, m - 1) + month_days(y, m - 1)
    }
}

/// A date of the calendar, years 1 to 9999.
pub open spec fn valid_date(y: int, m: int, d: int) -> bool {
    1 <= y <= 9999 && 1 <= m <= 12 && 1 <= d <= month_days(y, m)
}

/// The days from 1 January of year 1 to the date.
pub open spec fn day_number(y: int, m: int, d: int) -> int {
    days_before_year(y) + days_before_month(y, m) + d - 1
}

/// The day number of 1 January 1970, where Unix time starts.
pub open spec fn unix_epoch_day() -> int {
    719162
}

/// The day number of 1 January of year 10000, past the calendar's end.
pub open spec fn end_day() -> int {
    days_before_year(10000)
}

proof fn lemma_year_step(y: int)
    requires
        y >= 1,
    ensures
        days_before_year(y + 1) == days_before_year(y) + year_days(y),
{
    assert(y / 4 - (y - 1) / 4 == (if y % 4 == 0 { 1int } else { 0int }));
    assert(y / 100 - (y - 1) / 100 == (if y % 100 == 0 { 1int } else { 0int }));
    assert(y / 400 - (y - 1) / 400 == (if y % 400 == 0 { 1int } else { 0int }));
    if y % 400 == 0 {
        assert(y % 100 == 0);
        assert(y % 4 == 0);
    } else if y % 100 == 0 {
        assert(y % 4 == 0);
    }
}

/// Later years begin later.
proof fn lemma_year_order(a: int, b: int)
    requires
        1 <= a <= b,
    ensures
        days_before_year(a) + (b - a) * 365 <= days_before_year(b),
    decreases b - a,
{
    if a < b {
        lemma_year_order(a, b - 1);
        lemma_year_step(b - 1);
    }
}

proof fn lemma_month_bounds(y: int, m: int)
    requires
        1 <= m <= 12,
    ensures
        days_before_month(y, m) + month_days(y, m) == days_before_month(y, m + 1),
        days_before_month(y, 13) == year_days(y),
        0 <= days_before_month(y, m),
        days_before_month(y, m) + month_days(y, m) <= year_days(y),
{
    reveal_with_fuel(days_before_month, 13);
}

/// Later months of a year begin later.
proof fn lemma_month_order(y: int, a: int, b: int)
    requires
        1 <= a <= b <= 13,
    ensures
        days_before_month(y, a) + (b - a) * 28 <= days_before_month(y, b),
    decreases b - a,
{
    if a < b {
        lemma_month_order(y, a, b - 1);
    }
}

/// A date lies in its year: its day number is at least that of 1 January
/// and below that of the next 1 January.
proof fn lemma_date_in_year(y: int, m: int, d: int)
    requires
        valid_date(y, m, d),
    ensures
        days_before_year(y) <= day_number(y, m, d) < days_before_year(y + 1),
        days_before_year(y) + days_before_month(y, m) <= day_number(y, m, d) < days_before_year(y)
            + days_before_month(y, m + 1),
{
    lemma_month_bounds(y, m);
    lemma_year_step(y);
}

/// Different dates have different day numbers.
pub proof fn lemma_day_number_injective(y1: int, m1: int, d1: int, y2: int, m2: int, d2: int)
    requires
        valid_date(y1, m1, d1),
        valid_date(y2, m2, d2),
        day_number(y1, m1, d1) == day_number(y2, m2, d2),
    ensures
        y1 == y2 && m1 == m2 && d1 == d2,
{
    lemma_date_in_year(y1, m1, d1);
    lemma_date_in_year(y2, m2, d2);
    if y1 < y2 {
        lemma_year_order(y1 + 1, y2);
    } else if y2 < y1 {
        lemma_year_order(y2 + 1, y1);
    }
    assert(y1 == y2);
    if m1 < m2 {
        lemma_month_order(y1, m1 + 1, m2);
    } else if m2 < m1 {
        lemma_month_order(y1, m2 + 1, m1);
    }
}

/// The date whose day number is `n` (`0 <= n < end_day()`).
pub open spec fn date_of(n: int) -> (int, int, int) {
    choose|ymd: (int, int, int)| valid_date(ymd.0, ymd.1, ymd.2) && day_number(ymd.0, ymd.1, ymd.2) == n
}

fn year_length(y: u32) -> (r: u32)
    ensures
        r == year_days(y as int),
{
    if (y % 4 == 0 && y % 100 != 0) || y % 400 == 0 {
        366
    } else {
        365
    }
}

fn month_length(y: u32, m: u32) -> (r: u32)
    ensures
        r == month_days(y as int, m as int),
{
    if m == 2 {
        if (y % 4 == 0 && y % 100 != 0) || y % 400 == 0 {
            29
        } else {
            28
        }
    } else if m == 4 || m == 6 || m == 9 || m == 11 {
        30
    } else {
        31
    }
}

/// The date of day number `n`, counted from 1 January of year 1.
pub fn date_from_day_number(n: u32) -> (r: (u32, u32, u32))
    requires
        n < end_day(),
    ensures
        valid_date(r.0 as int, r.1 as int, r.2 as int),
        day_number(r.0 as int, r.1 as int, r.2 as int) == n,
        (r.0 as int, r.1 as int, r.2 as int) == date_of(n as int),
{
    let mut y: u32 = 1;
    let mut rest: u32 = n;
    while rest >= year_length(y)
        invariant
            1 <= y <= 9999,
            n < end_day(),
            rest as int == n - days_before_year(y as int),
        decreases 10000 - y,
    {
        proof {
            lemma_year_step(y as int);
            if y == 9999 {
                assert(false);
            }
        }
        rest = rest - year_length(y);
        y = y + 1;
    }
    let mut m: u32 = 1;
    proof {
        lemma_month_bounds(y as int, 1);
    }
    while rest >= month_length(y, m)
        invariant
            1 <= y <= 9999,
            1 <= m <= 12,
            rest as int == n - days_before_year(y as int) - days_before_month(y as int, m as int),
            rest + days_before_month(y as int, m as int) < year_days(y as int),
        decreases 12 - m,
    {
        proof {
            lemma_month_bounds(y as int, m as int);
            if m == 12 {
                assert(false);
            }
        }
        rest = rest - month_length(y, m);
        m = m + 1;
    }
    let d = rest + 1;
    proof {
        let r = (y as int, m as int, d as int);
        assert(valid_date(r.0, r.1, r.2));
        assert(day_number(r.0, r.1, r.2) == n);
        let c = date_of(n as int);
        lemma_day_number_injective(c.0, c.1, c.2, r.0, r.1, r.2);
    }
    (y, m, d)
}

/// `v` (below 100) in two digits.
pub open spec fn two_digits(v: int) -> Seq<char> {
    seq![digit_char((v / 10) as nat), digit_char((v % 10) as nat)]
}

/// The text of a moment: `YYYY-MM-DD HH:MM`, the year without padding.
pub open spec fn moment_text(y: int, m: int, d: int, hh: int, mm: int) -> Seq<char> {
    decimal(y as nat) + seq!['-'] + two_digits(m) + seq!['-'] + two_digits(d) + seq![' '] + two_digits(hh)
        + seq![':'] + two_digits(mm)
}

/// What is shown when a moment lies outside the calendar.
pub open spec fn no_moment_text() -> Seq<char> {
    "—"@
}

/// The text of the moment `secs` seconds after the Unix epoch, in local time
/// `offset` seconds ahead of UTC; the dash when it falls outside years 1 to
/// 9999.
pub open spec fn local_moment_text(secs: i64, offset: i64) -> Seq<char> {
    let local = secs + offset;
    let n = local / 86400 + unix_epoch_day();
    let s = local % 86400;
    if 0 <= n < end_day() {
        let ymd = date_of(n);
        moment_text(ymd.0, ymd.1, ymd.2, s / 3600, s % 3600 / 60)
    } else {
        no_moment_text()
    }
}

fn push_two_digits(out: &mut Vec<char>, v: u32)
    requires
        v < 100,
    ensures
        final(out)@ == old(out)@ + two_digits(v as int),
{
    let ghost o0 = out@;
    out.push(((48 + v / 10) as u8) as char);
    out.push(((48 + v % 10) as u8) as char);
    assert(out@ =~= o0 + two_digits(v as int));
}

/// The text of the moment `secs` seconds after the Unix epoch, in local time
/// `offset` seconds ahead of UTC: `YYYY-MM-DD HH:MM`, or the dash when it
/// falls outside years 1 to 9999.
pub fn local_moment(secs: i64, offset: i64) -> (r: String)
    ensures
        r@ == local_moment_text(secs, offset),
{
    let local: i128 = secs as i128 + offset as i128;
    let q: i128 = if local >= 0 {
        local / 86400
    } else {
        -((-local + 86399) / 86400)
    };
    let s: i128 = local - q * 86400;
    assert(q == local / 86400 && s == local % 86400) by (nonlinear_arith)
        requires
            q == (if local >= 0 {
                local / 86400
            } else {
                -((-local + 86399) / 86400)
            }),
            s == local - q * 86400,
    ;
    let n: i128 = q + 719162;
    if n < 0 || n >= 3652059 {
        return String::from_str("—");
    }
    assert(end_day() == 3652059);
    let (y, m, d) = date_from_day_number(n as u32);
    let sod = s as u32;
    let hh = sod / 3600;
    let mm = sod % 3600 / 60;
    let mut out = chars_of(decimal_string(y as usize).as_str());
    out.push('-');
    push_two_digits(&mut out, m);
    out.push('-');
    push_two_digits(&mut out, d);
    out.push(' ');
    push_two_digits(&mut out, hh);
    out.push(':');
    push_two_digits(&mut out, mm);
    let r = string_of(&out);
    assert(r@ =~= moment_text(y as int, m as int, d as int, hh as int, mm as int));
    r
}

} // verus!
