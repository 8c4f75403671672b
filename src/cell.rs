//! Spreadsheet cells and their normalisation to text, numbers and dates.
use vstd::prelude::*;

use crate::calendar::{
    date_text, format_date_text, parse_text, parsed_date, serial_date, date_of_serial, CalDate,
};
use crate::number::{decimal_micros, opt_int, parse_decimal};
use crate::text::{int_chars, int_text, string_of, trim, trim_chars, chars_of};

verus! {

/// One cell of a worksheet, as a spreadsheet reader hands it over.
#[derive(Clone, Debug, PartialEq)]
pub enum Cell {
    Empty,
    Int(i64),
    /// A floating-point value, held as the shortest decimal text that reads back as that value.
    Float(String),
    Text(String),
    /// A date-typed value: its serial day count written as a floating-point value's text.
    DateTime(String),
    /// Any other value (a boolean, an error, an ISO date or duration), by its display text.
    Other(String),
}

/// The text a cell displays.
pub open spec fn cell_text(c: Cell) -> Seq<char> {
    match c {
        Cell::Empty => Seq::empty(),
        Cell::Int(i) => int_text(i as int),
        Cell::Float(s) => s@,
        Cell::Text(s) => s@,
        Cell::DateTime(s) => s@,
        Cell::Other(s) => s@,
    }
}

/// Whether `char::is_numeric` holds of `c` (Unicode's number categories).
pub uninterp spec fn numeric_char(c: char) -> bool;

/// Relies on `char::is_numeric`: whether `c` is in one of Unicode's number categories.
#[verifier::external_body]
fn is_numeric(c: char) -> (r: bool)
    ensures
        r == numeric_char(c),
{
    c.is_numeric()
}

pub open spec fn in_number_run(c: char) -> bool {
    numeric_char(c) || c == '.' || c == '-'
}

/// The length of the run of numeric characters, `.` and `-` that `t` starts with.
pub open spec fn number_run_len(t: Seq<char>) -> nat
    decreases t.len(),
{
    if t.len() > 0 && in_number_run(t[0]) {
        1 + number_run_len(t.drop_first())
    } else {
        0
    }
}

/// The number that text holds: the whole trimmed text read as a decimal literal, or else the
/// run of numeric characters, `.` and `-` it starts with (as in "160*1000m").
pub open spec fn text_number(s: Seq<char>) -> Option<int> {
    let t = trim(s);
    if t.len() == 0 {
        None
    } else if decimal_micros(t) is Some {
        decimal_micros(t)
    } else {
        decimal_micros(t.take(number_run_len(t) as int))
    }
}

/// The number a cell holds, in millionths, when it holds one within `MAX_MICROS`.
pub open spec fn cell_number(c: Cell) -> Option<int> {
    match c {
        Cell::Int(i) => if -1_000_000_000 <= i <= 1_000_000_000 {
            Some(i * 1_000_000)
        } else {
            None
        },
        Cell::Float(s) => decimal_micros(s@),
        Cell::Text(s) => text_number(s@),
        _ => None,
    }
}

/// A value in millionths truncated toward zero to whole units.
pub open spec fn whole_units(v: int) -> int {
    if v >= 0 {
        v / 1_000_000
    } else {
        -((-v) / 1_000_000)
    }
}

/// The date `serial` days after 1899-12-30 written `YYYY-MM-DD`, or empty out of range.
pub open spec fn serial_text(serial: int) -> Seq<char> {
    match serial_date(serial) {
        Some(d) => date_text(d),
        None => Seq::empty(),
    }
}

/// The strftime formats a date text may take.
pub open spec fn date_formats() -> Seq<Seq<char>> {
    seq!["%Y-%m-%d"@, "%Y/%m/%d"@, "%Y年%m月%d日"@, "%d/%m/%Y"@, "%m/%d/%Y"@]
}

/// The date read from `t` by the first of `formats` that fits it.
pub open spec fn first_parse(t: Seq<char>, formats: Seq<Seq<char>>) -> Option<CalDate>
    decreases formats.len(),
{
    if formats.len() == 0 {
        None
    } else if parsed_date(t, formats[0]) is Some {
        parsed_date(t, formats[0])
    } else {
        first_parse(t, formats.drop_first())
    }
}

/// `t` rewritten `YYYY-MM-DD` when one of the date formats fits it, else `t` unchanged.
pub open spec fn normalized_date(t: Seq<char>) -> Seq<char> {
    match first_parse(t, date_formats()) {
        Some(d) => date_text(d),
        None => t,
    }
}

/// The date a cell holds, written `YYYY-MM-DD` where it can be read; text that no format fits is
/// kept (trimmed), and a cell with no date gives the empty text.
pub open spec fn cell_date_text(c: Cell) -> Seq<char> {
    match c {
        Cell::Int(i) => serial_text(i as int),
        Cell::Float(s) => match decimal_micros(s@) {
            Some(v) => serial_text(whole_units(v)),
            None => Seq::empty(),
        },
        Cell::DateTime(s) => match decimal_micros(s@) {
            Some(v) => serial_text(whole_units(v)),
            None => Seq::empty(),
        },
        Cell::Text(s) => normalized_date(trim(s@)),
        _ => Seq::empty(),
    }
}

pub open spec fn strs(v: Seq<&str>) -> Seq<Seq<char>> {
    v.map_values(|f: &str| f@)
}

/// The characters of the text a cell displays.
pub fn cell_chars(c: &Cell) -> (r: Vec<char>)
    ensures
        r@ == cell_text(*c),
{
    match c {
        Cell::Empty => Vec::new(),
        Cell::Int(i) => int_chars(*i),
        Cell::Float(s) => chars_of(s.as_str()),
        Cell::Text(s) => chars_of(s.as_str()),
        Cell::DateTime(s) => chars_of(s.as_str()),
        Cell::Other(s) => chars_of(s.as_str()),
    }
}

/// The number that text holds (see `text_number`).
pub fn text_number_of(s: &Vec<char>) -> (r: Option<i64>)
    ensures
        opt_int(r) == text_number(s@),
{
    let t = trim_chars(s);
    if t.len() == 0 {
        return None;
    }
    let whole = parse_decimal(&t);
    if whole.is_some() {
        return whole;
    }
    let mut k: usize = 0;
    let mut run: Vec<char> = Vec::new();
    assert(t@.skip(0) =~= t@);
    while k < t.len() && (is_numeric(t[k]) || t[k] == '.' || t[k] == '-')
        invariant
            k <= t.len(),
            run@ == t@.take(k as int),
            number_run_len(t@) == k + number_run_len(t@.skip(k as int)),
        decreases t.len() - k,
    {
        assert(t@.skip(k as int).drop_first() =~= t@.skip(k + 1));
        run.push(t[k]);
        k += 1;
        assert(run@ =~= t@.take(k as int));
    }
    proof {
        if k < t.len() {
            assert(t@.skip(k as int)[0] == t@[k as int]);
        }
    }
    parse_decimal(&run)
}

/// The number a cell holds, in millionths (see `cell_number`).
pub fn number_of(c: &Cell) -> (r: Option<i64>)
    ensures
        opt_int(r) == cell_number(*c),
{
    match c {
        Cell::Int(i) => {
            if -1_000_000_000 <= *i && *i <= 1_000_000_000 {
                Some(*i * 1_000_000)
            } else {
                None
            }
        },
        Cell::Float(s) => parse_decimal(&chars_of(s.as_str())),
        Cell::Text(s) => text_number_of(&chars_of(s.as_str())),
        _ => None,
    }
}

/// The formats of `date_formats`, in order.
pub fn date_format_list() -> (r: Vec<&'static str>)
    ensures
        strs(r@) == date_formats(),
{
    let r = vec!["%Y-%m-%d", "%Y/%m/%d", "%Y年%m月%d日", "%d/%m/%Y", "%m/%d/%Y"];
    assert(strs(r@) =~= date_formats());
    r
}

/// Reads `t` by the first of `formats` that fits it.
pub fn parse_first(t: &Vec<char>, formats: &Vec<&str>) -> (r: Option<CalDate>)
    ensures
        r == first_parse(t@, strs(formats@)),
        r matches Some(d) ==> crate::calendar::valid_date(d),
{
    let mut k: usize = 0;
    assert(strs(formats@).skip(0) =~= strs(formats@));
    while k < formats.len()
        invariant
            k <= formats.len(),
            first_parse(t@, strs(formats@)) == first_parse(t@, strs(formats@).skip(k as int)),
        decreases formats.len() - k,
    {
        let d = parse_text(t, formats[k]);
        assert(strs(formats@).skip(k as int)[0] == formats@[k as int]@);
        if d.is_some() {
            return d;
        }
        assert(strs(formats@).skip(k as int).drop_first() =~= strs(formats@).skip(k + 1));
        k += 1;
    }
    None
}

/// `t` rewritten `YYYY-MM-DD` when a date format fits it (see `normalized_date`).
pub fn normalize_date(t: &Vec<char>) -> (r: String)
    ensures
        r@ == normalized_date(t@),
{
    match parse_first(t, &date_format_list()) {
        Some(d) => format_date_text(d),
        None => string_of(t),
    }
}

fn serial_string(serial: i64) -> (r: String)
    ensures
        r@ == serial_text(serial as int),
{
    match date_of_serial(serial) {
        Some(d) => format_date_text(d),
        None => String::new(),
    }
}

/// Whole units of a value in millionths, truncated toward zero.
fn whole_units_of(v: i64) -> (r: i64)
    ensures
        r == whole_units(v as int),
{
    if v >= 0 {
        v / 1_000_000
    } else if v == i64::MIN {
        -9_223_372_036_854
    } else {
        -((-v) / 1_000_000)
    }
}

/// The date a cell holds, written `YYYY-MM-DD` (see `cell_date_text`).
pub fn date_string_of(c: &Cell) -> (r: String)
    ensures
        r@ == cell_date_text(*c),
{
    match c {
        Cell::Int(i) => serial_string(*i),
        Cell::Float(s) => match parse_decimal(&chars_of(s.as_str())) {
            Some(v) => serial_string(whole_units_of(v)),
            None => String::new(),
        },
        Cell::DateTime(s) => match parse_decimal(&chars_of(s.as_str())) {
            Some(v) => serial_string(whole_units_of(v)),
            None => String::new(),
        },
        Cell::Text(s) => normalize_date(&trim_chars(&chars_of(s.as_str()))),
        _ => String::new(),
    }
}

} // verus!
