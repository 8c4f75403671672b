//! Calendar dates of the proleptic Gregorian calendar, with the date handling that chrono
//! performs for the library: reading dates by format, and counting days.
use chrono::Datelike;
use vstd::prelude::*;

use crate::text::{
    digits_of, int_chars, int_text, nat_digits, string_of, zero_pad, zero_padded,
};

verus! {

/// A day of the proleptic Gregorian calendar (year 0 is 1 BCE).
#[derive(Clone, Copy, Debug, PartialEq, Eq, Structural)]
pub struct CalDate {
    pub year: i32,
    pub month: u32,
    pub day: u32,
}

/// The earliest year that chrono's dates reach.
pub const MIN_YEAR: i32 = -262143;

/// The latest year that chrono's dates reach.
pub const MAX_YEAR: i32 = 262142;

pub open spec fn is_leap(y: int) -> bool {
    (y % 4 == 0 && y % 100 != 0) || y % 400 == 0
}

pub open spec fn month_len(y: int, m: int) -> int {
    if m == 2 {
        if is_leap(y) {
            29
        } else {
            28
        }
    } else if m == 4 || m == 6 || m == 9 || m == 11 {
        30
    } else {
        31
    }
}

/// A real day, within chrono's range.
pub open spec fn valid_date(d: CalDate) -> bool {
    &&& MIN_YEAR <= d.year <= MAX_YEAR
    &&& 1 <= d.month <= 12
    &&& 1 <= d.day <= month_len(d.year as int, d.month as int)
}

/// Days from 0001-01-01 up to the first of January of year `y`.
pub open spec fn days_before_year(y: int) -> int {
    let p = y - 1;
    365 * p + p / 4 - p / 100 + p / 400
}

/// Days from the first of January of year `y` up to the first of month `m`.
pub open spec fn days_before_month(y: int, m: int) -> int {
    let base: int = if m <= 1 {
        0
    } else if m == 2 {
        31
    } else if m == 3 {
        59
    } else if m == 4 {
        90
    } else if m == 5 {
        120
    } else if m == 6 {
        151
    } else if m == 7 {
        181
    } else if m == 8 {
        212
    } else if m == 9 {
        243
    } else if m == 10 {
        273
    } else if m == 11 {
        304
    } else {
        334
    };
    if m > 2 && is_leap(y) {
        base + 1
    } else {
        base
    }
}

/// The number of a day, counting 0001-01-01 as day 1.
pub open spec fn day_number(d: CalDate) -> int {
    days_before_year(d.year as int) + days_before_month(d.year as int, d.month as int) + d.day
}

pub open spec fn first_date() -> CalDate {
    CalDate { year: MIN_YEAR, month: 1, day: 1 }
}

pub open spec fn last_date() -> CalDate {
    CalDate { year: MAX_YEAR, month: 12, day: 31 }
}

/// The day that serial day counts start from: 1899-12-30 is serial 0.
pub open spec fn serial_epoch() -> CalDate {
    CalDate { year: 1899, month: 12, day: 30 }
}

pub open spec fn day_in_range(n: int) -> bool {
    day_number(first_date()) <= n <= day_number(last_date())
}

/// The valid date with day number `n`.
pub open spec fn date_of_day_number(n: int) -> CalDate {
    choose|d: CalDate| valid_date(d) && day_number(d) == n
}

/// The date `serial` days after 1899-12-30, when it is within range.
pub open spec fn serial_date(serial: int) -> Option<CalDate> {
    let n = serial + day_number(serial_epoch());
    if day_in_range(n) {
        Some(date_of_day_number(n))
    } else {
        None
    }
}

/// How chrono writes a year with `%Y`: four digits at least, and a sign outside 0..=9999.
pub open spec fn year_text(y: int) -> Seq<char> {
    if 0 <= y <= 9999 {
        zero_pad(nat_digits(y as nat), 4)
    } else if y < 0 {
        seq!['-'] + zero_pad(nat_digits((-y) as nat), 4)
    } else {
        seq!['+'] + zero_pad(nat_digits(y as nat), 4)
    }
}

/// A date written `YYYY-MM-DD`.
pub open spec fn date_text(d: CalDate) -> Seq<char> {
    year_text(d.year as int) + seq!['-'] + zero_pad(nat_digits(d.month as nat), 2) + seq!['-']
        + zero_pad(nat_digits(d.day as nat), 2)
}

/// A year and month written `YYYY-MM`, the year as `i32`'s `Display` writes it.
pub open spec fn year_month_text(d: CalDate) -> Seq<char> {
    int_text(d.year as int) + seq!['-'] + zero_pad(nat_digits(d.month as nat), 2)
}

/// What chrono's `NaiveDate::parse_from_str` reads from `text` under the strftime `format`.
pub uninterp spec fn parsed_date(text: Seq<char>, format: Seq<char>) -> Option<CalDate>;

/// Relies on chrono's `NaiveDate::parse_from_str`: the date that `text` spells under `format`,
/// if any; chrono's dates are always real days within its range.
#[verifier::external_body]
fn parse_with(text: &str, format: &str) -> (r: Option<CalDate>)
    ensures
        r == parsed_date(text@, format@),
        r matches Some(d) ==> valid_date(d),
{
    match chrono::NaiveDate::parse_from_str(text, format) {
        Ok(d) => Some(CalDate { year: d.year(), month: d.month(), day: d.day() }),
        Err(_) => None,
    }
}

/// Relies on chrono's `NaiveDate::from_num_days_from_ce_opt`: the date with day number `n`,
/// present exactly when it lies between chrono's first and last dates.
#[verifier::external_body]
fn date_of_day(n: i32) -> (r: Option<CalDate>)
    ensures
        r is Some <==> day_in_range(n as int),
        r matches Some(d) ==> valid_date(d) && day_number(d) == n,
{
    match chrono::NaiveDate::from_num_days_from_ce_opt(n) {
        Some(d) => Some(CalDate { year: d.year(), month: d.month(), day: d.day() }),
        None => None,
    }
}

/// Relies on chrono's `NaiveDate::from_ymd_opt`: the date exists exactly when it is a real day
/// within chrono's range.
#[verifier::external_body]
pub(crate) fn date_from_ymd(year: i32, month: u32, day: u32) -> (r: Option<CalDate>)
    ensures
        valid_date(CalDate { year, month, day }) ==> r == Some(CalDate { year, month, day }),
        !valid_date(CalDate { year, month, day }) ==> r is None,
{
    match chrono::NaiveDate::from_ymd_opt(year, month, day) {
        Some(d) => Some(CalDate { year: d.year(), month: d.month(), day: d.day() }),
        None => None,
    }
}

/// Counting multiples of `d`: `y` adds one exactly when `d` divides it.
pub proof fn lemma_div_step(y: int, d: int)
    requires
        d > 0,
    ensures
        y / d - (y - 1) / d == (if y % d == 0 {
            1int
        } else {
            0int
        }),
{
    vstd::arithmetic::div_mod::lemma_fundamental_div_mod(y, d);
    vstd::arithmetic::div_mod::lemma_fundamental_div_mod(y - 1, d);
    let q1 = y / d;
    let r1 = y % d;
    let q0 = (y - 1) / d;
    let r0 = (y - 1) % d;
    assert(0 <= r1 < d && 0 <= r0 < d);
    assert(q1 - q0 == (if r1 == 0 {
        1int
    } else {
        0int
    })) by (nonlinear_arith)
        requires
            d > 0,
            0 <= r1 < d,
            0 <= r0 < d,
            d * q1 + r1 == d * q0 + r0 + 1,
    ;
}

pub proof fn lemma_year_len(y: int)
    ensures
        days_before_year(y + 1) == days_before_year(y) + (if is_leap(y) {
            366int
        } else {
            365int
        }),
{
    lemma_div_step(y, 4);
    lemma_div_step(y, 100);
    lemma_div_step(y, 400);
    assert(y % 400 == 0 ==> y % 100 == 0) by {
        if y % 400 == 0 {
            vstd::arithmetic::div_mod::lemma_fundamental_div_mod(y, 400);
            vstd::arithmetic::div_mod::lemma_fundamental_div_mod(y, 100);
            assert(y % 100 == 0) by (nonlinear_arith)
                requires
                    y == 400 * (y / 400),
                    y == 100 * (y / 100) + y % 100,
                    0 <= y % 100 < 100,
            ;
        }
    }
    assert(y % 100 == 0 ==> y % 4 == 0) by {
        if y % 100 == 0 {
            vstd::arithmetic::div_mod::lemma_fundamental_div_mod(y, 100);
            vstd::arithmetic::div_mod::lemma_fundamental_div_mod(y, 4);
            assert(y % 4 == 0) by (nonlinear_arith)
                requires
                    y == 100 * (y / 100),
                    y == 4 * (y / 4) + y % 4,
                    0 <= y % 4 < 4,
            ;
        }
    }
}

pub proof fn lemma_years_ordered(a: int, b: int)
    requires
        a <= b,
    ensures
        days_before_year(a) <= days_before_year(b),
    decreases b - a,
{
    if a < b {
        lemma_years_ordered(a, b - 1);
        lemma_year_len(b - 1);
    }
}

/// A valid date falls within its own year.
pub proof fn lemma_day_in_year(d: CalDate)
    requires
        valid_date(d),
    ensures
        days_before_year(d.year as int) < day_number(d) <= days_before_year(d.year + 1),
{
    lemma_year_len(d.year as int);
}

/// Distinct valid dates have distinct day numbers.
pub proof fn lemma_day_number_injective(a: CalDate, b: CalDate)
    requires
        valid_date(a),
        valid_date(b),
        day_number(a) == day_number(b),
    ensures
        a == b,
{
    lemma_day_in_year(a);
    lemma_day_in_year(b);
    if a.year < b.year {
        lemma_years_ordered(a.year + 1, b.year as int);
    } else if b.year < a.year {
        lemma_years_ordered(b.year + 1, a.year as int);
    }
}

/// The date `serial` days after 1899-12-30 (see `serial_date`).
pub fn date_of_serial(serial: i64) -> (r: Option<CalDate>)
    ensures
        r == serial_date(serial as int),
        r matches Some(d) ==> valid_date(d),
{
    assert(day_number(serial_epoch()) == 693594);
    assert(day_number(first_date()) == -95746129);
    assert(day_number(last_date()) == 95745399);
    if serial < -100_000_000 || serial > 100_000_000 {
        return None;
    }
    let n = (serial + 693594) as i32;
    let r = date_of_day(n);
    proof {
        if let Some(d) = r {
            let c = date_of_day_number(n as int);
            assert(valid_date(c) && day_number(c) == n);
            lemma_day_number_injective(c, d);
        }
    }
    r
}

/// `d` written `YYYY-MM-DD`, as chrono formats `%Y-%m-%d`.
pub fn format_date_text(d: CalDate) -> (r: String)
    requires
        valid_date(d),
    ensures
        r@ == date_text(d),
{
    let mut v: Vec<char> = Vec::new();
    if d.year < 0 {
        v.push('-');
    } else if d.year > 9999 {
        v.push('+');
    }
    let mag: u64 = if d.year < 0 {
        (-(d.year as i64)) as u64
    } else {
        d.year as u64
    };
    let y = zero_padded(digits_of(mag), 4);
    let m = zero_padded(digits_of(d.month as u64), 2);
    let dd = zero_padded(digits_of(d.day as u64), 2);
    let ghost start = v@;
    let mut out = v;
    append_all(&mut out, &y);
    out.push('-');
    append_all(&mut out, &m);
    out.push('-');
    append_all(&mut out, &dd);
    assert(out@ =~= date_text(d));
    string_of(&out)
}

/// `d` written `YYYY-MM`, the year as `i32`'s `Display` writes it.
pub fn format_year_month_text(d: CalDate) -> (r: String)
    ensures
        r@ == year_month_text(d),
{
    let mut out = int_chars(d.year as i64);
    out.push('-');
    let m = zero_padded(digits_of(d.month as u64), 2);
    append_all(&mut out, &m);
    assert(out@ =~= year_month_text(d));
    string_of(&out)
}

/// Appends the characters of `w` to `v`.
pub fn append_all(v: &mut Vec<char>, w: &Vec<char>)
    ensures
        final(v)@ == old(v)@ + w@,
{
    let ghost start = v@;
    let mut k: usize = 0;
    while k < w.len()
        invariant
            k <= w.len(),
            v@ == start + w@.take(k as int),
        decreases w.len() - k,
    {
        v.push(w[k]);
        k += 1;
        assert(v@ =~= start + w@.take(k as int));
    }
    assert(w@.take(w.len() as int) =~= w@);
}

/// Whether two dates are the same day.
pub fn same_date(a: CalDate, b: CalDate) -> (r: bool)
    ensures
        r == (a == b),
{
    a.year == b.year && a.month == b.month && a.day == b.day
}

/// Reads `text` under `format` (see `parsed_date`).
pub fn parse_text(text: &Vec<char>, format: &str) -> (r: Option<CalDate>)
    ensures
        r == parsed_date(text@, format@),
        r matches Some(d) ==> valid_date(d),
{
    let s = string_of(text);
    parse_with(s.as_str(), format)
}

} // verus!
