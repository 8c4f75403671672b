//! Checking the records of every file together: date formats, dates named in file names, and
//! delivery-order numbers repeated across files.
use vstd::prelude::*;

use crate::calendar::{date_from_ymd, date_text, format_date_text, same_date, valid_date, CalDate};
use crate::cell::{first_parse, parse_first, strs};
use crate::models::{item_views, DeliveryItem, FileValidationError, ItemView};
use crate::number::{all_digits, digits_val, is_digit_char, lemma_digits_prefix, lemma_digits_step};
use crate::text::{chars_of, lemma_lt_total, lemma_lt_transitive, less_chars,
    same_chars, seq_lt, string_of};

verus! {

/// What extraction gave for one file.
pub struct FileBatch {
    /// The file's path, as issues report it.
    pub path: String,
    /// The last component of the path.
    pub file_name: String,
    /// The file's records, or why it could not be read.
    pub outcome: Result<Vec<DeliveryItem>, String>,
}

impl View for FileValidationError {
    type V = (Seq<char>, Seq<char>);

    open spec fn view(&self) -> (Seq<char>, Seq<char>) {
        (self.file@, self.error@)
    }
}

pub open spec fn issue_views(v: Seq<FileValidationError>) -> Seq<(Seq<char>, Seq<char>)> {
    v.map_values(|i: FileValidationError| i@)
}

/// The groups of the leftmost match of the regular expression `pattern` in `text` (a group
/// that took no part is empty), or none when nothing matches or `pattern` is not a valid
/// regular expression.
pub uninterp spec fn regex_groups(pattern: Seq<char>, text: Seq<char>) -> Option<Seq<Seq<char>>>;

/// Relies on regex's `Regex::new` and `Regex::captures`: the capture groups after the whole
/// match, of the leftmost match.
#[verifier::external_body]
fn match_groups(pattern: &str, text: &str) -> (r: Option<Vec<String>>)
    ensures
        r is Some <==> regex_groups(pattern@, text@) is Some,
        r matches Some(v) ==> regex_groups(pattern@, text@)->0 == v@.map_values(
            |s: String| s@,
        ),
{
    let re = regex::Regex::new(pattern).ok()?;
    let caps = re.captures(text)?;
    Some(caps.iter().skip(1).map(|m| m.map_or(String::new(), |m| m.as_str().to_string())).collect())
}

/// The pattern of a date in a file name: four digits, then one or two, then one or two, each
/// pair separated by `-` or `.`.
pub open spec fn filename_date_pattern() -> Seq<char> {
    "(\\d{4})[-.](\\d{1,2})[-.](\\d{1,2})"@
}

/// A non-empty run of ASCII digits, read as a number.
pub open spec fn ascii_number(s: Seq<char>) -> Option<int> {
    if s.len() > 0 && all_digits(s) {
        Some(digits_val(s))
    } else {
        None
    }
}

pub open spec fn bounded_number(s: Seq<char>, max: int) -> Option<int> {
    match ascii_number(s) {
        Some(v) => if v <= max {
            Some(v)
        } else {
            None
        },
        None => None,
    }
}

/// The date a file name carries, when its first date-shaped part is a real day.
pub open spec fn filename_date(name: Seq<char>) -> Option<CalDate> {
    match regex_groups(filename_date_pattern(), name) {
        Some(g) => if g.len() >= 3 && bounded_number(g[0], i32::MAX as int) is Some
            && bounded_number(g[1], u32::MAX as int) is Some && bounded_number(g[2], u32::MAX as int) is Some {
            let d = CalDate {
                year: bounded_number(g[0], i32::MAX as int)->0 as i32,
                month: bounded_number(g[1], u32::MAX as int)->0 as u32,
                day: bounded_number(g[2], u32::MAX as int)->0 as u32,
            };
            if valid_date(d) {
                Some(d)
            } else {
                None
            }
        } else {
            None
        },
        None => None,
    }
}

/// The formats a record's date must take.
pub open spec fn record_date_formats() -> Seq<Seq<char>> {
    seq!["%Y-%m-%d"@, "%Y/%m/%d"@, "%Y年%m月%d日"@]
}

/// The date a record's date text spells, by the first record format that fits.
pub open spec fn content_date(s: Seq<char>) -> Option<CalDate> {
    first_parse(s, record_date_formats())
}

/// The text after the last `/` or `\` of a path.
pub open spec fn last_segment(s: Seq<char>) -> Seq<char>
    decreases s.len(),
{
    if s.len() == 0 {
        Seq::empty()
    } else if s.last() == '/' || s.last() == '\\' {
        Seq::empty()
    } else {
        last_segment(s.drop_last()).push(s.last())
    }
}

pub open spec fn parse_failed_msg(cause: Seq<char>) -> Seq<char> {
    "parse failed: "@ + cause
}

pub open spec fn empty_file_msg() -> Seq<char> {
    "file contains no valid data or layout mismatch"@
}

pub open spec fn date_error_msg(date: Seq<char>) -> Seq<char> {
    "invalid date '"@ + date + "': unrecognized date format or invalid date"@
}

pub open spec fn mismatch_msg(file_date: CalDate, content: CalDate) -> Seq<char> {
    "date mismatch: file name date ("@ + date_text(file_date) + ") differs from content date ("@
        + date_text(content) + ")"@
}

pub open spec fn duplicate_msg(customer: Seq<char>, order: Seq<char>, file: Seq<char>) -> Seq<
    char,
> {
    "duplicate delivery order number: customer '"@ + customer + "' order '"@ + order
        + "' already appears in file '"@ + last_segment(file) + "'"@
}

/// A (customer, delivery-order number) pair with the file it was first seen in.
pub type SeenView = (Seq<char>, Seq<char>, Seq<char>);

/// The file in which `customer`'s order `order` was first seen.
pub open spec fn lookup(seen: Seq<SeenView>, customer: Seq<char>, order: Seq<char>) -> Option<
    Seq<char>,
>
    decreases seen.len(),
{
    if seen.len() == 0 {
        None
    } else if seen[0].0 == customer && seen[0].1 == order {
        Some(seen[0].2)
    } else {
        lookup(seen.drop_first(), customer, order)
    }
}

/// The state carried from file to file.
#[verifier::ext_equal]
pub struct Ledger {
    pub accepted: Seq<ItemView>,
    pub errors: Seq<(Seq<char>, Seq<char>)>,
    pub warnings: Seq<(Seq<char>, Seq<char>)>,
    pub seen: Seq<SeenView>,
}

/// Checking one record of the file at `path`: an error for a date no record format fits, a
/// warning for a date other than the file name's, a warning for a delivery-order number that
/// the same customer has in another file; the first file of each number is remembered.
pub open spec fn check_item(l: Ledger, path: Seq<char>, fdate: Option<CalDate>, it: ItemView) -> Ledger {
    let cd = content_date(it.date);
    let errors = if cd is None {
        l.errors.push((path, date_error_msg(it.date)))
    } else {
        l.errors
    };
    let w1 = if cd is Some && fdate is Some && cd->0 != fdate->0 {
        l.warnings.push((path, mismatch_msg(fdate->0, cd->0)))
    } else {
        l.warnings
    };
    let found = lookup(l.seen, it.customer, it.delivery_order_no);
    let w2 = if it.delivery_order_no.len() > 0 && found is Some && found->0 != path {
        w1.push((path, duplicate_msg(it.customer, it.delivery_order_no, found->0)))
    } else {
        w1
    };
    let seen = if it.delivery_order_no.len() > 0 && found is None {
        l.seen.push((it.customer, it.delivery_order_no, path))
    } else {
        l.seen
    };
    Ledger { accepted: l.accepted, errors, warnings: w2, seen }
}

pub open spec fn check_items(
    l: Ledger,
    path: Seq<char>,
    fdate: Option<CalDate>,
    items: Seq<ItemView>,
) -> Ledger
    decreases items.len(),
{
    if items.len() == 0 {
        l
    } else {
        check_item(check_items(l, path, fdate, items.drop_last()), path, fdate, items.last())
    }
}

pub open spec fn dates_valid(items: Seq<ItemView>) -> bool {
    forall|i: int| 0 <= i < items.len() ==> (#[trigger] content_date(items[i].date)) is Some
}

/// One file's effect: an error when it could not be read, a warning when it gave no records,
/// else the checks of its records, and its records accepted when none had a bad date.
pub open spec fn file_step(l: Ledger, b: FileBatch) -> Ledger {
    match b.outcome {
        Err(e) => Ledger {
            accepted: l.accepted,
            errors: l.errors.push((b.path@, parse_failed_msg(e@))),
            warnings: l.warnings,
            seen: l.seen,
        },
        Ok(v) => if v.len() == 0 {
            Ledger {
                accepted: l.accepted,
                errors: l.errors,
                warnings: l.warnings.push((b.path@, empty_file_msg())),
                seen: l.seen,
            }
        } else {
            let l2 = check_items(l, b.path@, filename_date(b.file_name@), item_views(v@));
            if dates_valid(item_views(v@)) {
                Ledger {
                    accepted: l2.accepted + item_views(v@),
                    errors: l2.errors,
                    warnings: l2.warnings,
                    seen: l2.seen,
                }
            } else {
                l2
            }
        },
    }
}

pub open spec fn empty_ledger() -> Ledger {
    Ledger { accepted: Seq::empty(), errors: Seq::empty(), warnings: Seq::empty(), seen: Seq::empty() }
}

/// The state after the files of `batches`, in order.
pub open spec fn ledger_of(batches: Seq<FileBatch>) -> Ledger
    decreases batches.len(),
{
    if batches.len() == 0 {
        empty_ledger()
    } else {
        file_step(ledger_of(batches.drop_last()), batches.last())
    }
}

/// Issues ordered by file, then by message.
pub open spec fn issue_lt(a: (Seq<char>, Seq<char>), b: (Seq<char>, Seq<char>)) -> bool {
    seq_lt(a.0, b.0) || (a.0 == b.0 && seq_lt(a.1, b.1))
}

pub open spec fn strictly_sorted(v: Seq<(Seq<char>, Seq<char>)>) -> bool {
    forall|i: int, j: int| 0 <= i < j < v.len() ==> issue_lt(#[trigger] v[i], #[trigger] v[j])
}

pub proof fn lemma_issue_transitive(
    a: (Seq<char>, Seq<char>),
    b: (Seq<char>, Seq<char>),
    c: (Seq<char>, Seq<char>),
)
    requires
        issue_lt(a, b),
        issue_lt(b, c),
    ensures
        issue_lt(a, c),
{
    if seq_lt(a.0, b.0) && seq_lt(b.0, c.0) {
        lemma_lt_transitive(a.0, b.0, c.0);
    } else if seq_lt(a.1, b.1) && seq_lt(b.1, c.1) && a.0 == b.0 && b.0 == c.0 {
        lemma_lt_transitive(a.1, b.1, c.1);
    }
}

pub proof fn lemma_issue_total(a: (Seq<char>, Seq<char>), b: (Seq<char>, Seq<char>))
    requires
        a != b,
    ensures
        issue_lt(a, b) || issue_lt(b, a),
{
    if a.0 != b.0 {
        lemma_lt_total(a.0, b.0);
    } else {
        assert(a.1 != b.1);
        lemma_lt_total(a.1, b.1);
    }
}

/// A non-empty run of ASCII digits read as a number no larger than `max`.
pub(crate) fn ascii_value(s: &Vec<char>, max: u64) -> (r: Option<u64>)
    requires
        max <= u32::MAX,
    ensures
        r is Some <==> bounded_number(s@, max as int) is Some,
        r matches Some(v) ==> v == bounded_number(s@, max as int)->0,
{
    if s.len() == 0 {
        return None;
    }
    let mut v: u64 = 0;
    let mut i: usize = 0;
    assert(s@.take(0) =~= Seq::<char>::empty());
    while i < s.len()
        invariant
            i <= s.len(),
            s.len() > 0,
            max <= u32::MAX,
            all_digits(s@.take(i as int)),
            v == digits_val(s@.take(i as int)),
            v <= max,
        decreases s.len() - i,
    {
        if !is_digit_char(s[i]) {
            return None;
        }
        let d = (s[i] as u32 - 48) as u64;
        proof {
            lemma_digits_step(s@, i as int);
            assert(all_digits(s@.take(i + 1))) by {
                assert forall|j: int| 0 <= j < i + 1 implies crate::number::is_digit(
                    #[trigger] s@.take(i + 1)[j],
                ) by {
                    if j < i {
                        assert(s@.take(i + 1)[j] == s@.take(i as int)[j]);
                    }
                }
            }
        }
        let nv = v * 10 + d;
        if nv > max {
            proof {
                if all_digits(s@) {
                    lemma_digits_prefix(s@, i + 1);
                }
            }
            return None;
        }
        v = nv;
        i += 1;
    }
    assert(s@.take(s.len() as int) =~= s@);
    Some(v)
}

/// The date a file name carries (see `filename_date`).
pub fn extract_date_from_filename(name: &str) -> (r: Option<CalDate>)
    ensures
        r == filename_date(name@),
{
    let groups = match match_groups("(\\d{4})[-.](\\d{1,2})[-.](\\d{1,2})", name) {
        Some(g) => g,
        None => {
            return None;
        },
    };
    if groups.len() < 3 {
        return None;
    }
    let ghost g = groups@.map_values(|s: String| s@);
    assert(g[0] == groups@[0]@ && g[1] == groups@[1]@ && g[2] == groups@[2]@);
    let y = match ascii_value(&chars_of(groups[0].as_str()), 2147483647) {
        Some(y) => y,
        None => {
            return None;
        },
    };
    let m = match ascii_value(&chars_of(groups[1].as_str()), 4294967295) {
        Some(m) => m,
        None => {
            return None;
        },
    };
    let d = match ascii_value(&chars_of(groups[2].as_str()), 4294967295) {
        Some(d) => d,
        None => {
            return None;
        },
    };
    date_from_ymd(y as i32, m as u32, d as u32)
}

fn record_format_list() -> (r: Vec<&'static str>)
    ensures
        strs(r@) == record_date_formats(),
{
    let r = vec!["%Y-%m-%d", "%Y/%m/%d", "%Y年%m月%d日"];
    assert(strs(r@) =~= record_date_formats());
    r
}

/// The date a record's date text spells (see `content_date`).
pub fn parse_date(s: &str) -> (r: Option<CalDate>)
    ensures
        r == content_date(s@),
        r matches Some(d) ==> valid_date(d),
{
    parse_first(&chars_of(s), &record_format_list())
}

/// Whether a record's date text takes one of the record formats.
pub fn validate_date_str(s: &str) -> (r: bool)
    ensures
        r == content_date(s@) is Some,
{
    parse_date(s).is_some()
}

fn last_segment_of(s: &String) -> (r: String)
    ensures
        r@ == last_segment(s@),
{
    let v = chars_of(s.as_str());
    let mut cur: Vec<char> = Vec::new();
    let mut i: usize = 0;
    assert(v@.take(0) =~= Seq::<char>::empty());
    while i < v.len()
        invariant
            i <= v.len(),
            cur@ == last_segment(v@.take(i as int)),
        decreases v.len() - i,
    {
        assert(v@.take(i + 1).drop_last() =~= v@.take(i as int));
        if v[i] == '/' || v[i] == '\\' {
            cur = Vec::new();
        } else {
            cur.push(v[i]);
        }
        i += 1;
    }
    assert(v@.take(v.len() as int) =~= v@);
    string_of(&cur)
}

fn issue(path: &String, message: String) -> (r: FileValidationError)
    ensures
        r@ == (path@, message@),
{
    FileValidationError { file: path.clone(), error: message }
}

fn parse_failed_text(cause: &String) -> (r: String)
    ensures
        r@ == parse_failed_msg(cause@),
{
    let mut m = String::from_str("parse failed: ");
    m.append(cause.as_str());
    m
}

fn date_error_text(date: &String) -> (r: String)
    ensures
        r@ == date_error_msg(date@),
{
    let mut m = String::from_str("invalid date '");
    m.append(date.as_str());
    m.append("': unrecognized date format or invalid date");
    m
}

fn mismatch_text(file_date: CalDate, content: CalDate) -> (r: String)
    requires
        valid_date(file_date),
        valid_date(content),
    ensures
        r@ == mismatch_msg(file_date, content),
{
    let mut m = String::from_str("date mismatch: file name date (");
    m.append(format_date_text(file_date).as_str());
    m.append(") differs from content date (");
    m.append(format_date_text(content).as_str());
    m.append(")");
    m
}

fn duplicate_text(customer: &String, order: &String, file: &String) -> (r: String)
    ensures
        r@ == duplicate_msg(customer@, order@, file@),
{
    let mut m = String::from_str("duplicate delivery order number: customer '");
    m.append(customer.as_str());
    m.append("' order '");
    m.append(order.as_str());
    m.append("' already appears in file '");
    m.append(last_segment_of(file).as_str());
    m.append("'");
    m
}

struct SeenOrder {
    customer: String,
    order_no: String,
    file: String,
}

spec fn seen_views(v: Seq<SeenOrder>) -> Seq<SeenView> {
    v.map_values(|o: SeenOrder| (o.customer@, o.order_no@, o.file@))
}

struct Tally {
    accepted: Vec<DeliveryItem>,
    errors: Vec<FileValidationError>,
    warnings: Vec<FileValidationError>,
    seen: Vec<SeenOrder>,
}

spec fn tally_view(t: Tally) -> Ledger {
    Ledger {
        accepted: item_views(t.accepted@),
        errors: issue_views(t.errors@),
        warnings: issue_views(t.warnings@),
        seen: seen_views(t.seen@),
    }
}

fn find_seen(seen: &Vec<SeenOrder>, customer: &String, order: &String) -> (r: Option<usize>)
    ensures
        r matches Some(i) ==> i < seen.len() && lookup(seen_views(seen@), customer@, order@)
            == Some(seen@[i as int].file@),
        r is None ==> lookup(seen_views(seen@), customer@, order@) is None,
{
    let ghost sv = seen_views(seen@);
    let mut i: usize = 0;
    assert(sv.skip(0) =~= sv);
    while i < seen.len()
        invariant
            i <= seen.len(),
            sv == seen_views(seen@),
            lookup(sv, customer@, order@) == lookup(sv.skip(i as int), customer@, order@),
        decreases seen.len() - i,
    {
        assert(sv.skip(i as int)[0] == sv[i as int]);
        if seen[i].customer == *customer && seen[i].order_no == *order {
            return Some(i);
        }
        assert(sv.skip(i as int).drop_first() =~= sv.skip(i + 1));
        i += 1;
    }
    None
}

/// Checks one record of the file at `path` (see `check_item`); whether its date is bad.
fn check_record(t: &mut Tally, path: &String, fdate: Option<CalDate>, it: &DeliveryItem) -> (bad:
    bool)
    requires
        fdate matches Some(f) ==> valid_date(f),
    ensures
        tally_view(*final(t)) == check_item(tally_view(*old(t)), path@, fdate, it@),
        bad == (content_date(it.date@) is None),
{
    let ghost l = tally_view(*t);
    let cd = parse_date(it.date.as_str());
    let bad = cd.is_none();
    if bad {
        t.errors.push(issue(path, date_error_text(&it.date)));
    }
    match (cd, fdate) {
        (Some(c), Some(f)) => {
            if !same_date(c, f) {
                t.warnings.push(issue(path, mismatch_text(f, c)));
            }
        },
        _ => {},
    }
    let ghost w1 = issue_views(t.warnings@);
    if !it.delivery_order_no.as_str().is_empty() {
        match find_seen(&t.seen, &it.customer, &it.delivery_order_no) {
            Some(i) => {
                if t.seen[i].file != *path {
                    let msg = duplicate_text(&it.customer, &it.delivery_order_no, &t.seen[i].file);
                    t.warnings.push(issue(path, msg));
                }
            },
            None => {
                t.seen.push(
                    SeenOrder {
                        customer: it.customer.clone(),
                        order_no: it.delivery_order_no.clone(),
                        file: path.clone(),
                    },
                );
            },
        }
    }
    proof {
        let m = check_item(l, path@, fdate, it@);
        assert(issue_views(t.errors@) =~= m.errors);
        assert(issue_views(t.warnings@) =~= m.warnings);
        assert(seen_views(t.seen@) =~= m.seen);
        assert(item_views(t.accepted@) =~= m.accepted);
    }
    bad
}

fn issue_less(a: &FileValidationError, b: &FileValidationError) -> (r: bool)
    ensures
        r == issue_lt(a@, b@),
{
    let af = chars_of(a.file.as_str());
    let bf = chars_of(b.file.as_str());
    if less_chars(&af, &bf) {
        return true;
    }
    same_chars(&af, &bf) && less_chars(&chars_of(a.error.as_str()), &chars_of(b.error.as_str()))
}

fn same_issue(a: &FileValidationError, b: &FileValidationError) -> (r: bool)
    ensures
        r == (a@ == b@),
{
    a.file == b.file && a.error == b.error
}

fn copy_issue(a: &FileValidationError) -> (r: FileValidationError)
    ensures
        r@ == a@,
{
    FileValidationError { file: a.file.clone(), error: a.error.clone() }
}

/// The distinct issues of `v`, each once, ordered by file and then by message.
pub fn sort_unique(v: &Vec<FileValidationError>) -> (r: Vec<FileValidationError>)
    ensures
        strictly_sorted(issue_views(r@)),
        issue_views(r@).to_set() == issue_views(v@).to_set(),
{
    let mut res: Vec<FileValidationError> = Vec::new();
    let mut i: usize = 0;
    while i < v.len()
        invariant
            i <= v.len(),
            strictly_sorted(issue_views(res@)),
            forall|x: (Seq<char>, Seq<char>)|
                issue_views(res@).contains(x) <==> issue_views(v@).take(i as int).contains(x),
        decreases v.len() - i,
    {
        let w = &v[i];
        let ghost rv = issue_views(res@);
        let mut j: usize = 0;
        while j < res.len() && issue_less(&res[j], w)
            invariant
                j <= res.len(),
                rv == issue_views(res@),
                forall|k: int| 0 <= k < j ==> issue_lt(#[trigger] rv[k], w@),
            decreases res.len() - j,
        {
            j += 1;
        }
        let ghost vi = issue_views(v@).take(i + 1);
        assert(issue_views(v@).take(i as int) =~= vi.drop_last());
        assert(vi.last() == w@);
        assert forall|x: (Seq<char>, Seq<char>)| rv.contains(x) <==> vi.drop_last().contains(x) by {
            assert(issue_views(res@).contains(x) <==> issue_views(v@).take(i as int).contains(x));
        }
        if j < res.len() && same_issue(&res[j], w) {
            proof {
                assert forall|x: (Seq<char>, Seq<char>)| rv.contains(x) <==> vi.contains(x) by {
                    if vi.contains(x) {
                        let k = choose|k: int| 0 <= k < vi.len() && vi[k] == x;
                        if k == vi.len() - 1 {
                            assert(rv[j as int] == x);
                        } else {
                            assert(vi.drop_last()[k] == x);
                        }
                    }
                    if rv.contains(x) {
                        assert(issue_views(res@).contains(x) <==> issue_views(v@).take(
                            i as int,
                        ).contains(x));
                        assert(vi.drop_last().contains(x));
                        let k = choose|k: int| 0 <= k < vi.drop_last().len() && vi.drop_last()[k] == x;
                        assert(vi[k] == x);
                    }
                }
            }
        } else {
            proof {
                if j < res.len() {
                    assert(!issue_lt(rv[j as int], w@));
                    assert(rv[j as int] != w@);
                    lemma_issue_total(rv[j as int], w@);
                    assert forall|m: int| j <= m < rv.len() implies issue_lt(w@, #[trigger] rv[m]) by {
                        if m > j {
                            lemma_issue_transitive(w@, rv[j as int], rv[m]);
                        }
                    }
                }
            }
            res.insert(j, copy_issue(w));
            proof {
                let nv = issue_views(res@);
                assert(nv =~= rv.insert(j as int, w@));
                assert forall|a: int, b: int| 0 <= a < b < nv.len() implies issue_lt(
                    #[trigger] nv[a],
                    #[trigger] nv[b],
                ) by {
                    if b < j {
                    } else if b == j {
                    } else if a < j {
                        assert(issue_lt(w@, rv[b - 1]));
                        lemma_issue_transitive(nv[a], w@, nv[b]);
                    } else if a == j {
                        assert(issue_lt(w@, rv[b - 1]));
                    } else {
                    }
                }
                assert forall|x: (Seq<char>, Seq<char>)| nv.contains(x) <==> vi.contains(x) by {
                    if vi.contains(x) {
                        let k = choose|k: int| 0 <= k < vi.len() && vi[k] == x;
                        if k == vi.len() - 1 {
                            assert(nv[j as int] == x);
                        } else {
                            assert(vi.drop_last()[k] == x);
                            assert(rv.contains(x));
                            let m = choose|m: int| 0 <= m < rv.len() && rv[m] == x;
                            if m < j {
                                assert(nv[m] == x);
                            } else {
                                assert(nv[m + 1] == x);
                            }
                        }
                    }
                    if nv.contains(x) {
                        let m = choose|m: int| 0 <= m < nv.len() && nv[m] == x;
                        if m == j {
                            assert(vi[vi.len() - 1] == x);
                        } else {
                            if m < j {
                                assert(rv[m] == x);
                            } else {
                                assert(rv[m - 1] == x);
                            }
                            assert(rv.contains(x));
                            assert(vi.drop_last().contains(x));
                            let k = choose|k: int|
                                0 <= k < vi.drop_last().len() && vi.drop_last()[k] == x;
                            assert(vi[k] == x);
                        }
                    }
                }
            }
        }
        i += 1;
    }
    assert(issue_views(v@).take(v.len() as int) =~= issue_views(v@));
    assert(issue_views(res@).to_set() =~= issue_views(v@).to_set());
    res
}

/// Reconciles the records of every file: the records of the files without errors, in file
/// order; the errors, in the order found; and the warnings, each once, ordered by file and then
/// by message (see `ledger_of`).
pub fn validate_delivery_data(batches: &Vec<FileBatch>) -> (r: (
    Vec<DeliveryItem>,
    Vec<FileValidationError>,
    Vec<FileValidationError>,
))
    ensures
        item_views(r.0@) == ledger_of(batches@).accepted,
        issue_views(r.1@) == ledger_of(batches@).errors,
        strictly_sorted(issue_views(r.2@)),
        issue_views(r.2@).to_set() == ledger_of(batches@).warnings.to_set(),
{
    let mut t = Tally {
        accepted: Vec::new(),
        errors: Vec::new(),
        warnings: Vec::new(),
        seen: Vec::new(),
    };
    proof {
        assert(tally_view(t) =~= empty_ledger());
        assert(batches@.take(0) =~= Seq::<FileBatch>::empty());
    }
    let mut k: usize = 0;
    while k < batches.len()
        invariant
            k <= batches.len(),
            tally_view(t) == ledger_of(batches@.take(k as int)),
        decreases batches.len() - k,
    {
        let b = &batches[k];
        assert(batches@.take(k + 1).drop_last() =~= batches@.take(k as int));
        let ghost l0 = tally_view(t);
        match &b.outcome {
            Err(e) => {
                t.errors.push(issue(&b.path, parse_failed_text(e)));
                assert(tally_view(t) =~= file_step(l0, *b));
            },
            Ok(v) => {
                if v.len() == 0 {
                    t.warnings.push(issue(&b.path, String::from_str("file contains no valid data or layout mismatch")));
                    assert(tally_view(t) =~= file_step(l0, *b));
                } else {
                    let fdate = extract_date_from_filename(b.file_name.as_str());
                    let ghost iv = item_views(v@);
                    let mut ok = true;
                    let mut j: usize = 0;
                    assert(iv.take(0) =~= Seq::<ItemView>::empty());
                    while j < v.len()
                        invariant
                            j <= v.len(),
                            iv == item_views(v@),
                            fdate == filename_date(b.file_name@),
                            tally_view(t) == check_items(l0, b.path@, fdate, iv.take(j as int)),
                            ok == dates_valid(iv.take(j as int)),
                        decreases v.len() - j,
                    {
                        assert(iv.take(j + 1).drop_last() =~= iv.take(j as int));
                        assert(iv.take(j + 1).last() == v@[j as int]@);
                        let bad = check_record(&mut t, &b.path, fdate, &v[j]);
                        proof {
                            if ok && !bad {
                                assert forall|x: int| 0 <= x < j + 1 implies (#[trigger] content_date(
                                    iv.take(j + 1)[x].date,
                                )) is Some by {
                                    if x < j {
                                        assert(iv.take(j + 1)[x] == iv.take(j as int)[x]);
                                    }
                                }
                            }
                            if !ok {
                                let x = choose|x: int| 0 <= x < j && (#[trigger] content_date(
                                    iv.take(j as int)[x].date,
                                )) is None;
                                assert(iv.take(j + 1)[x] == iv.take(j as int)[x]);
                            }
                            if bad {
                                assert(iv.take(j + 1)[j as int] == v@[j as int]@);
                            }
                        }
                        ok = ok && !bad;
                        j += 1;
                    }
                    assert(iv.take(v.len() as int) =~= iv);
                    if ok {
                        let ghost before = item_views(t.accepted@);
                        let mut m: usize = 0;
                        while m < v.len()
                            invariant
                                m <= v.len(),
                                iv == item_views(v@),
                                item_views(t.accepted@) == before + iv.take(m as int),
                                issue_views(t.errors@) == check_items(l0, b.path@, fdate, iv).errors,
                                issue_views(t.warnings@) == check_items(l0, b.path@, fdate, iv).warnings,
                                seen_views(t.seen@) == check_items(l0, b.path@, fdate, iv).seen,
                            decreases v.len() - m,
                        {
                            let ghost old_acc = t.accepted@;
                            let d = v[m].duplicate();
                            t.accepted.push(d);
                            assert(iv.take(m + 1) =~= iv.take(m as int).push(v@[m as int]@));
                            assert(item_views(t.accepted@) =~= item_views(old_acc).push(d@));
                            assert(item_views(t.accepted@) =~= before + iv.take(m + 1));
                            m += 1;
                        }
                        assert(iv.take(v.len() as int) =~= iv);
                    }
                    assert(tally_view(t) =~= file_step(l0, *b));
                }
            },
        }
        k += 1;
    }
    assert(batches@.take(batches.len() as int) =~= batches@);
    let warnings = sort_unique(&t.warnings);
    (t.accepted, t.errors, warnings)
}

/// The records of every file that could be read, in file order.
pub open spec fn merged(batches: Seq<FileBatch>) -> Seq<ItemView>
    decreases batches.len(),
{
    if batches.len() == 0 {
        Seq::empty()
    } else {
        match batches.last().outcome {
            Ok(v) => merged(batches.drop_last()) + item_views(v@),
            Err(_) => merged(batches.drop_last()),
        }
    }
}

/// The records of every file that could be read, in file order, without checks.
pub fn merge_delivery_data(batches: &Vec<FileBatch>) -> (r: Vec<DeliveryItem>)
    ensures
        item_views(r@) == merged(batches@),
{
    let mut all: Vec<DeliveryItem> = Vec::new();
    let mut k: usize = 0;
    assert(batches@.take(0) =~= Seq::<FileBatch>::empty());
    assert(item_views(all@) =~= Seq::<ItemView>::empty());
    while k < batches.len()
        invariant
            k <= batches.len(),
            item_views(all@) == merged(batches@.take(k as int)),
        decreases batches.len() - k,
    {
        assert(batches@.take(k + 1).drop_last() =~= batches@.take(k as int));
        assert(batches@.take(k + 1).last() == batches@[k as int]);
        match &batches[k].outcome {
            Ok(v) => {
                let ghost before = item_views(all@);
                let mut m: usize = 0;
                while m < v.len()
                    invariant
                        m <= v.len(),
                        item_views(all@) == before + item_views(v@).take(m as int),
                    decreases v.len() - m,
                {
                    let ghost prev = all@;
                    let d = v[m].duplicate();
                    all.push(d);
                    assert(item_views(v@).take(m + 1) =~= item_views(v@).take(m as int).push(
                        v@[m as int]@,
                    ));
                    assert(item_views(all@) =~= item_views(prev).push(d@));
                    m += 1;
                }
                assert(item_views(v@).take(v.len() as int) =~= item_views(v@));
            },
            Err(_) => {},
        }
        k += 1;
    }
    assert(batches@.take(batches.len() as int) =~= batches@);
    all
}

} // verus!
