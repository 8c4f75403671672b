//! Locating the header row, the slip's metadata and its merchandise lines in a worksheet.
use vstd::prelude::*;

use crate::cell::{
    cell_chars, cell_date_text, cell_number, cell_text, date_string_of, normalize_date,
    normalized_date, number_of, strs, Cell,
};
use crate::models::{amounts_bounded, item_views, DeliveryItem, ItemView};
use crate::number::MAX_MICROS;
use crate::text::{
    ascii_lower, chars_of, contains, has_word, lower_chars, lower_seq,
    same_chars, slice_chars, split_chars, split_fields, string_of, trim, trim_chars, views,
};

verus! {

/// The rows of a worksheet, each a sequence of cells (rows may differ in length).
pub open spec fn rows_of(sheet: Seq<Vec<Cell>>) -> Seq<Seq<Cell>> {
    sheet.map_values(|r: Vec<Cell>| r@)
}

/// The columns that a header row can name.
#[derive(Clone, Copy, Debug, PartialEq, Eq, Structural)]
pub enum Field {
    Product,
    Spec,
    Quantity,
    Unit,
    Price,
    Amount,
    OrderNo,
}

/// The labels that name each column, in the order they are tried.
pub open spec fn field_keywords(f: Field) -> Seq<Seq<char>> {
    match f {
        Field::Product => seq!["货名"@, "货品名称"@, "Description"@],
        Field::Spec => seq!["规格"@],
        Field::Quantity => seq!["数量"@, "Quantity"@],
        Field::Unit => seq!["单位"@, "unit"@],
        Field::Price => seq!["单价"@, "Unit Price"@, "价格"@, "Price"@],
        Field::Amount => seq!["金额"@, "Amount"@, "总价"@],
        Field::OrderNo => seq!["订单号"@, "PO"@],
    }
}

/// The columns in the order a label is matched against them: a cell names the first that fits.
pub open spec fn field_order() -> Seq<Field> {
    seq![
        Field::Product,
        Field::Spec,
        Field::Quantity,
        Field::Unit,
        Field::Price,
        Field::Amount,
        Field::OrderNo,
    ]
}

/// Some keyword of `kws` occurs in `t`.
pub open spec fn contains_any(t: Seq<char>, kws: Seq<Seq<char>>) -> bool
    decreases kws.len(),
{
    kws.len() > 0 && (contains(t, kws[0]) || contains_any(t, kws.drop_first()))
}

pub open spec fn first_field(t: Seq<char>, fields: Seq<Field>) -> Option<Field>
    decreases fields.len(),
{
    if fields.len() == 0 {
        None
    } else if contains_any(t, field_keywords(fields[0])) {
        Some(fields[0])
    } else {
        first_field(t, fields.drop_first())
    }
}

/// The column that a cell's text names, if any.
pub open spec fn field_of(t: Seq<char>) -> Option<Field> {
    first_field(t, field_order())
}

pub open spec fn row_has_label(row: Seq<Cell>) -> bool {
    exists|c: int| 0 <= c < row.len() && (#[trigger] field_of(cell_text(row[c]))) is Some
}

/// The number of leading rows searched for the header row.
pub const HEADER_SCAN_ROWS: usize = 15;

/// The number of leading rows searched for the slip's metadata.
pub const META_SCAN_ROWS: usize = 10;

/// The first row from `r` on, among the leading rows, that names a column.
pub open spec fn header_from(rows: Seq<Seq<Cell>>, r: int) -> Option<int>
    decreases HEADER_SCAN_ROWS - r,
{
    if r < 0 || r >= HEADER_SCAN_ROWS || r >= rows.len() {
        None
    } else if row_has_label(rows[r]) {
        Some(r)
    } else {
        header_from(rows, r + 1)
    }
}

/// The first column from `c` on whose cell names `f`.
pub open spec fn first_col(row: Seq<Cell>, f: Field, c: int) -> Option<int>
    decreases row.len() - c,
{
    if c < 0 || c >= row.len() {
        None
    } else if field_of(cell_text(row[c])) == Some(f) {
        Some(c)
    } else {
        first_col(row, f, c + 1)
    }
}

/// Where the columns of the merchandise lines are, and the row they start on.
#[derive(Clone, Copy, Debug, PartialEq, Eq, Structural)]
pub struct Layout {
    pub product: usize,
    pub spec: usize,
    pub quantity: usize,
    pub unit: usize,
    pub price: Option<usize>,
    pub amount: Option<usize>,
    pub order_no: Option<usize>,
    pub data_start: usize,
}

pub open spec fn col_or(o: Option<int>, d: usize) -> usize {
    match o {
        Some(c) => c as usize,
        None => d,
    }
}

pub open spec fn col_opt(o: Option<int>) -> Option<usize> {
    match o {
        Some(c) => Some(c as usize),
        None => None,
    }
}

/// The layout assumed when no header row is found.
pub open spec fn default_layout() -> Layout {
    Layout {
        product: 0,
        spec: 2,
        quantity: 4,
        unit: 5,
        price: None,
        amount: None,
        order_no: None,
        data_start: 8,
    }
}

/// The layout of a sheet: the columns its header row names (the first cell naming each), with
/// the default column for an unnamed product, spec, quantity or unit.
pub open spec fn layout_of(rows: Seq<Seq<Cell>>) -> Layout {
    match header_from(rows, 0) {
        None => default_layout(),
        Some(h) => {
            let row = rows[h];
            Layout {
                product: col_or(first_col(row, Field::Product, 0), 0),
                spec: col_or(first_col(row, Field::Spec, 0), 2),
                quantity: col_or(first_col(row, Field::Quantity, 0), 4),
                unit: col_or(first_col(row, Field::Unit, 0), 5),
                price: col_opt(first_col(row, Field::Price, 0)),
                amount: col_opt(first_col(row, Field::Amount, 0)),
                order_no: col_opt(first_col(row, Field::OrderNo, 0)),
                data_start: (h + 1) as usize,
            }
        },
    }
}

/// The four values looked for above the merchandise lines.
#[derive(Clone, Copy, Debug, PartialEq, Eq, Structural)]
pub enum MetaField {
    Customer,
    Date,
    DeliveryNo,
    OrderNo,
}

pub open spec fn no_word() -> Seq<char> {
    seq!['n', 'o']
}

/// Whether a cell's (trimmed) text announces `f`.
pub open spec fn announces(f: MetaField, t: Seq<char>) -> bool {
    match f {
        MetaField::Customer => contains(t, "客户"@) || contains(t, "单位"@),
        MetaField::Date => contains(t, "日期"@),
        MetaField::DeliveryNo => contains(lower_seq(t), no_word()) || contains(t, "单号"@),
        MetaField::OrderNo => contains(t, "订单号"@),
    }
}

pub open spec fn next_cell(row: Seq<Cell>, c: int) -> Option<Cell> {
    if 0 <= c + 1 < row.len() {
        Some(row[c + 1])
    } else {
        None
    }
}

pub open spec fn trimmed_text(c: Option<Cell>) -> Seq<char> {
    match c {
        Some(x) => trim(cell_text(x)),
        None => Seq::empty(),
    }
}

/// The text after the first colon of `t` (up to a second one), trimmed.
pub open spec fn after_colon(t: Seq<char>) -> Seq<char> {
    let parts = split_fields(t, false);
    if parts.len() > 1 {
        trim(parts[1])
    } else {
        Seq::empty()
    }
}

/// A value in the announcing cell after a colon, else the text of the cell to its right.
pub open spec fn labeled_value(t: Seq<char>, next: Option<Cell>) -> Seq<char> {
    if after_colon(t).len() > 0 {
        after_colon(t)
    } else {
        trimmed_text(next)
    }
}

/// A date after a colon, normalised, else the date the cell to the right holds.
pub open spec fn date_value(t: Seq<char>, next: Option<Cell>) -> Seq<char> {
    if after_colon(t).len() > 0 {
        normalized_date(after_colon(t))
    } else {
        match next {
            Some(x) => cell_date_text(x),
            None => Seq::empty(),
        }
    }
}

/// A piece that labels a delivery-order number: "no" in any case, or "单号".
pub open spec fn is_no_label(p: Seq<char>) -> bool {
    lower_seq(trim(p)) == no_word() || trim(p) == "单号"@
}

/// The piece after the first label piece, from `p` on, that is followed by a non-blank piece.
pub open spec fn token_after_label(parts: Seq<Seq<char>>, p: int) -> Seq<char>
    decreases parts.len() - p,
{
    if p < 0 || p >= parts.len() {
        Seq::empty()
    } else if is_no_label(parts[p]) && p + 1 < parts.len() && trim(parts[p + 1]).len() > 0 {
        trim(parts[p + 1])
    } else {
        token_after_label(parts, p + 1)
    }
}

/// The rest of a text that starts with "no" in any case, trimmed.
pub open spec fn after_no(t: Seq<char>) -> Seq<char> {
    if t.len() >= 2 && ascii_lower(t[0]) == 'n' && ascii_lower(t[1]) == 'o' {
        trim(t.skip(2))
    } else {
        Seq::empty()
    }
}

/// A delivery-order number: the piece after a "no" label, else the rest of a cell starting with
/// "no", else the text of the cell to the right.
pub open spec fn delivery_value(t: Seq<char>, next: Option<Cell>) -> Seq<char> {
    let a = token_after_label(split_fields(t, true), 0);
    if a.len() > 0 {
        a
    } else if after_no(t).len() > 0 {
        after_no(t)
    } else {
        trimmed_text(next)
    }
}

/// What cell `c` of `row` offers for `f`: empty unless it announces `f`.
pub open spec fn candidate(f: MetaField, row: Seq<Cell>, c: int) -> Seq<char> {
    let t = trim(cell_text(row[c]));
    if announces(f, t) {
        match f {
            MetaField::Date => date_value(t, next_cell(row, c)),
            MetaField::DeliveryNo => delivery_value(t, next_cell(row, c)),
            _ => labeled_value(t, next_cell(row, c)),
        }
    } else {
        Seq::empty()
    }
}

/// The first non-empty candidate for `f` in `row` from column `c` on.
pub open spec fn meta_in_row(f: MetaField, row: Seq<Cell>, c: int) -> Seq<char>
    decreases row.len() - c,
{
    if c < 0 || c >= row.len() {
        Seq::empty()
    } else if candidate(f, row, c).len() > 0 {
        candidate(f, row, c)
    } else {
        meta_in_row(f, row, c + 1)
    }
}

/// The first non-empty candidate for `f` in the leading rows from row `r` on.
pub open spec fn meta_in_rows(f: MetaField, rows: Seq<Seq<Cell>>, r: int) -> Seq<char>
    decreases META_SCAN_ROWS - r,
{
    if r < 0 || r >= META_SCAN_ROWS || r >= rows.len() {
        Seq::empty()
    } else if meta_in_row(f, rows[r], 0).len() > 0 {
        meta_in_row(f, rows[r], 0)
    } else {
        meta_in_rows(f, rows, r + 1)
    }
}

/// The metadata of a sheet (see `meta_in_rows`).
pub open spec fn meta_of(rows: Seq<Seq<Cell>>, f: MetaField) -> Seq<char> {
    meta_in_rows(f, rows, 0)
}

/// A product name with line breaks turned into spaces and double quotes removed.
pub open spec fn strip_name(t: Seq<char>) -> Seq<char>
    decreases t.len(),
{
    if t.len() == 0 {
        Seq::empty()
    } else {
        let p = strip_name(t.drop_last());
        let c = t.last();
        if c == '"' {
            p
        } else if c == '\n' {
            p.push(' ')
        } else {
            p.push(c)
        }
    }
}

pub open spec fn clean_name(t: Seq<char>) -> Seq<char> {
    trim(strip_name(t))
}

/// A row whose first cell marks the totals that end the merchandise lines.
pub open spec fn is_totals_row(row: Seq<Cell>) -> bool {
    row.len() > 0 && (contains(cell_text(row[0]), "合计"@) || contains(cell_text(row[0]),
        "送货单位"@))
}

/// The trimmed text of column `c`, or empty past the row's end.
pub open spec fn text_at(row: Seq<Cell>, c: int) -> Seq<char> {
    if 0 <= c < row.len() {
        trim(cell_text(row[c]))
    } else {
        Seq::empty()
    }
}

/// The number in an optional column, or 0 when the column is absent or holds none.
pub open spec fn number_at(row: Seq<Cell>, c: Option<usize>) -> int {
    match c {
        Some(i) => if i < row.len() {
            match cell_number(row[i as int]) {
                Some(v) => v,
                None => 0,
            }
        } else {
            0
        },
        None => 0,
    }
}

/// The first purchase-order number written after a colon in a cell of `row` from column `c` on.
pub open spec fn row_po(row: Seq<Cell>, c: int) -> Seq<char>
    decreases row.len() - c,
{
    if c < 0 || c >= row.len() {
        Seq::empty()
    } else if contains(cell_text(row[c]), "订单号"@) && after_colon(cell_text(row[c])).len() > 0 {
        after_colon(cell_text(row[c]))
    } else {
        row_po(row, c + 1)
    }
}

/// The purchase-order number after a line: an earlier one is kept, else the line may give one.
pub open spec fn resync(po: Seq<char>, row: Seq<Cell>) -> Seq<char> {
    if po.len() > 0 {
        po
    } else {
        row_po(row, 0)
    }
}

/// A row makes a record: it has a non-empty product name and a quantity.
pub open spec fn qualifies(row: Seq<Cell>, l: Layout) -> bool {
    &&& l.product < row.len()
    &&& clean_name(cell_text(row[l.product as int])).len() > 0
    &&& l.quantity < row.len()
    &&& cell_number(row[l.quantity as int]) is Some
}

/// The slip-wide values stamped on every record.
pub struct Stamp {
    pub customer: Seq<char>,
    pub date: Seq<char>,
    pub delivery_no: Seq<char>,
    pub source: Seq<char>,
    pub customer_type: Seq<char>,
}

/// The record of a qualifying row, given the purchase-order number after it.
pub open spec fn row_item(row: Seq<Cell>, l: Layout, s: Stamp, po: Seq<char>) -> ItemView {
    ItemView {
        product_name: clean_name(cell_text(row[l.product as int])),
        spec: text_at(row, l.spec as int),
        quantity: cell_number(row[l.quantity as int])->0,
        unit: text_at(row, l.unit as int),
        unit_price: number_at(row, l.price),
        amount: number_at(row, l.amount),
        customer: s.customer,
        date: s.date,
        delivery_order_no: s.delivery_no,
        order_no: match l.order_no {
            Some(i) => if text_at(row, i as int).len() > 0 {
                text_at(row, i as int)
            } else {
                po
            },
            None => po,
        },
        source_file: s.source,
        customer_type: s.customer_type,
    }
}

/// The records of the rows from `r` on, up to a totals row, with `po` the purchase-order number
/// so far.
pub open spec fn records_from(
    rows: Seq<Seq<Cell>>,
    l: Layout,
    s: Stamp,
    r: int,
    po: Seq<char>,
) -> Seq<ItemView>
    decreases rows.len() - r,
{
    if r < 0 || r >= rows.len() || is_totals_row(rows[r]) {
        Seq::empty()
    } else if qualifies(rows[r], l) {
        seq![row_item(rows[r], l, s, resync(po, rows[r]))] + records_from(
            rows,
            l,
            s,
            r + 1,
            resync(po, rows[r]),
        )
    } else {
        records_from(rows, l, s, r + 1, po)
    }
}

pub open spec fn stamp_of(rows: Seq<Seq<Cell>>, source: Seq<char>, customer_type: Seq<char>) -> Stamp {
    Stamp {
        customer: meta_of(rows, MetaField::Customer),
        date: meta_of(rows, MetaField::Date),
        delivery_no: meta_of(rows, MetaField::DeliveryNo),
        source,
        customer_type,
    }
}

/// The records of a sheet.
pub open spec fn sheet_records(
    rows: Seq<Seq<Cell>>,
    source: Seq<char>,
    customer_type: Seq<char>,
) -> Seq<ItemView> {
    records_from(
        rows,
        layout_of(rows),
        stamp_of(rows, source, customer_type),
        layout_of(rows).data_start as int,
        meta_of(rows, MetaField::OrderNo),
    )
}

/// The labels of `f` (see `field_keywords`).
fn keywords_of(f: Field) -> (r: Vec<&'static str>)
    ensures
        strs(r@) == field_keywords(f),
{
    let r = match f {
        Field::Product => vec!["货名", "货品名称", "Description"],
        Field::Spec => vec!["规格"],
        Field::Quantity => vec!["数量", "Quantity"],
        Field::Unit => vec!["单位", "unit"],
        Field::Price => vec!["单价", "Unit Price", "价格", "Price"],
        Field::Amount => vec!["金额", "Amount", "总价"],
        Field::OrderNo => vec!["订单号", "PO"],
    };
    assert(strs(r@) =~= field_keywords(f));
    r
}

/// Whether some label of `f` occurs in `t`.
fn mentions(t: &Vec<char>, f: Field) -> (r: bool)
    ensures
        r == contains_any(t@, field_keywords(f)),
{
    let kws = keywords_of(f);
    let mut k: usize = 0;
    assert(strs(kws@).skip(0) =~= strs(kws@));
    while k < kws.len()
        invariant
            k <= kws.len(),
            strs(kws@) == field_keywords(f),
            contains_any(t@, field_keywords(f)) == contains_any(t@, strs(kws@).skip(k as int)),
        decreases kws.len() - k,
    {
        assert(strs(kws@).skip(k as int)[0] == kws@[k as int]@);
        if has_word(t, kws[k]) {
            return true;
        }
        assert(strs(kws@).skip(k as int).drop_first() =~= strs(kws@).skip(k + 1));
        k += 1;
    }
    false
}

/// The column that a cell's text names (see `field_of`).
pub fn field_named(t: &Vec<char>) -> (r: Option<Field>)
    ensures
        r == field_of(t@),
{
    let fields = vec![
        Field::Product,
        Field::Spec,
        Field::Quantity,
        Field::Unit,
        Field::Price,
        Field::Amount,
        Field::OrderNo,
    ];
    assert(fields@ =~= field_order());
    let mut k: usize = 0;
    assert(fields@.skip(0) =~= fields@);
    while k < fields.len()
        invariant
            k <= fields.len(),
            fields@ == field_order(),
            field_of(t@) == first_field(t@, fields@.skip(k as int)),
        decreases fields.len() - k,
    {
        assert(fields@.skip(k as int)[0] == fields@[k as int]);
        if mentions(t, fields[k]) {
            return Some(fields[k]);
        }
        assert(fields@.skip(k as int).drop_first() =~= fields@.skip(k + 1));
        k += 1;
    }
    None
}

fn has_label(row: &Vec<Cell>) -> (r: bool)
    ensures
        r == row_has_label(row@),
{
    let mut c: usize = 0;
    while c < row.len()
        invariant
            c <= row.len(),
            forall|j: int| 0 <= j < c ==> (#[trigger] field_of(cell_text(row@[j]))) is None,
        decreases row.len() - c,
    {
        if field_named(&cell_chars(&row[c])).is_some() {
            assert(field_of(cell_text(row@[c as int])) is Some);
            return true;
        }
        c += 1;
    }
    false
}

fn column_of(row: &Vec<Cell>, f: Field) -> (r: Option<usize>)
    ensures
        col_opt(first_col(row@, f, 0)) == r,
        r matches Some(c) ==> c < row.len(),
{
    let mut c: usize = 0;
    while c < row.len()
        invariant
            c <= row.len(),
            first_col(row@, f, 0) == first_col(row@, f, c as int),
        decreases row.len() - c,
    {
        if field_named(&cell_chars(&row[c])) == Some(f) {
            return Some(c);
        }
        c += 1;
    }
    None
}

fn column_or(row: &Vec<Cell>, f: Field, d: usize) -> (r: usize)
    ensures
        r == col_or(first_col(row@, f, 0), d),
{
    match column_of(row, f) {
        Some(c) => c,
        None => d,
    }
}

/// Finds the header row among the leading rows and the columns it names (see `layout_of`).
pub fn locate_layout(sheet: &Vec<Vec<Cell>>) -> (r: Layout)
    ensures
        r == layout_of(rows_of(sheet@)),
{
    let ghost rows = rows_of(sheet@);
    let mut r: usize = 0;
    while r < HEADER_SCAN_ROWS && r < sheet.len()
        invariant
            r <= HEADER_SCAN_ROWS,
            rows == rows_of(sheet@),
            header_from(rows, 0) == header_from(rows, r as int),
        decreases HEADER_SCAN_ROWS - r,
    {
        let row = &sheet[r];
        assert(rows[r as int] == row@);
        if has_label(row) {
            return Layout {
                product: column_or(row, Field::Product, 0),
                spec: column_or(row, Field::Spec, 2),
                quantity: column_or(row, Field::Quantity, 4),
                unit: column_or(row, Field::Unit, 5),
                price: column_of(row, Field::Price),
                amount: column_of(row, Field::Amount),
                order_no: column_of(row, Field::OrderNo),
                data_start: r + 1,
            };
        }
        r += 1;
    }
    Layout {
        product: 0,
        spec: 2,
        quantity: 4,
        unit: 5,
        price: None,
        amount: None,
        order_no: None,
        data_start: 8,
    }
}

fn after_colon_of(t: &Vec<char>) -> (r: Vec<char>)
    ensures
        r@ == after_colon(t@),
{
    let parts = split_chars(t, false);
    if parts.len() > 1 {
        assert(views(parts@)[1] == parts@[1]@);
        trim_chars(&parts[1])
    } else {
        Vec::new()
    }
}

fn next_text(row: &Vec<Cell>, c: usize) -> (r: Vec<char>)
    requires
        c < row.len(),
    ensures
        r@ == trimmed_text(next_cell(row@, c as int)),
{
    if c + 1 < row.len() {
        trim_chars(&cell_chars(&row[c + 1]))
    } else {
        Vec::new()
    }
}

fn labeled_value_of(t: &Vec<char>, row: &Vec<Cell>, c: usize) -> (r: Vec<char>)
    requires
        c < row.len(),
    ensures
        r@ == labeled_value(t@, next_cell(row@, c as int)),
{
    let a = after_colon_of(t);
    if a.len() > 0 {
        a
    } else {
        next_text(row, c)
    }
}

fn date_value_of(t: &Vec<char>, row: &Vec<Cell>, c: usize) -> (r: Vec<char>)
    requires
        c < row.len(),
    ensures
        r@ == date_value(t@, next_cell(row@, c as int)),
{
    let a = after_colon_of(t);
    if a.len() > 0 {
        let s = normalize_date(&a);
        chars_of(s.as_str())
    } else if c + 1 < row.len() {
        let s = date_string_of(&row[c + 1]);
        chars_of(s.as_str())
    } else {
        Vec::new()
    }
}

fn is_no_label_of(p: &Vec<char>) -> (r: bool)
    ensures
        r == is_no_label(p@),
{
    let tp = trim_chars(p);
    let no = vec!['n', 'o'];
    assert(no@ =~= no_word());
    same_chars(&lower_chars(&tp), &no) || same_chars(&tp, &chars_of("单号"))
}

fn delivery_value_of(t: &Vec<char>, row: &Vec<Cell>, c: usize) -> (r: Vec<char>)
    requires
        c < row.len(),
    ensures
        r@ == delivery_value(t@, next_cell(row@, c as int)),
{
    let parts = split_chars(t, true);
    let ghost ps = views(parts@);
    let mut p: usize = 0;
    while p < parts.len()
        invariant
            p <= parts.len(),
            ps == views(parts@),
            ps == split_fields(t@, true),
            token_after_label(ps, 0) == token_after_label(ps, p as int),
        decreases parts.len() - p,
    {
        assert(ps[p as int] == parts@[p as int]@);
        if is_no_label_of(&parts[p]) && p + 1 < parts.len() {
            assert(ps[p + 1] == parts@[p + 1]@);
            let v = trim_chars(&parts[p + 1]);
            if v.len() > 0 {
                assert(token_after_label(ps, p as int) == v@);
                return v;
            }
        }
        p += 1;
    }
    if t.len() >= 2 && crate::text::lower_char(t[0]) == 'n' && crate::text::lower_char(t[1])
        == 'o' {
        let n = t.len();
        let rest = slice_chars(t, 2, n);
        assert(rest@ =~= t@.skip(2));
        let v = trim_chars(&rest);
        if v.len() > 0 {
            return v;
        }
    }
    next_text(row, c)
}

fn announces_of(f: MetaField, t: &Vec<char>) -> (r: bool)
    ensures
        r == announces(f, t@),
{
    match f {
        MetaField::Customer => has_word(t, "客户") || has_word(t, "单位"),
        MetaField::Date => has_word(t, "日期"),
        MetaField::DeliveryNo => {
            let no = vec!['n', 'o'];
            assert(no@ =~= no_word());
            crate::text::has_infix(&lower_chars(t), &no) || has_word(t, "单号")
        },
        MetaField::OrderNo => has_word(t, "订单号"),
    }
}

fn candidate_of(f: MetaField, row: &Vec<Cell>, c: usize) -> (r: Vec<char>)
    requires
        c < row.len(),
    ensures
        r@ == candidate(f, row@, c as int),
{
    let t = trim_chars(&cell_chars(&row[c]));
    if announces_of(f, &t) {
        match f {
            MetaField::Date => date_value_of(&t, row, c),
            MetaField::DeliveryNo => delivery_value_of(&t, row, c),
            _ => labeled_value_of(&t, row, c),
        }
    } else {
        Vec::new()
    }
}

/// The value of `f` found above the merchandise lines (see `meta_in_rows`).
pub fn meta_value(sheet: &Vec<Vec<Cell>>, f: MetaField) -> (r: String)
    ensures
        r@ == meta_of(rows_of(sheet@), f),
{
    let ghost rows = rows_of(sheet@);
    let mut r: usize = 0;
    while r < META_SCAN_ROWS && r < sheet.len()
        invariant
            r <= META_SCAN_ROWS,
            rows == rows_of(sheet@),
            rows.len() == sheet.len(),
            meta_of(rows, f) == meta_in_rows(f, rows, r as int),
        decreases META_SCAN_ROWS - r,
    {
        let row = &sheet[r];
        assert(rows[r as int] == row@);
        let mut c: usize = 0;
        while c < row.len()
            invariant
                c <= row.len(),
                r < sheet.len(),
                r < META_SCAN_ROWS,
                rows.len() == sheet.len(),
                rows == rows_of(sheet@),
                meta_of(rows, f) == meta_in_rows(f, rows, r as int),
                row@ == rows[r as int],
                meta_in_row(f, row@, 0) == meta_in_row(f, row@, c as int),
            decreases row.len() - c,
        {
            let v = candidate_of(f, row, c);
            if v.len() > 0 {
                assert(meta_in_row(f, row@, c as int) == v@);
                assert(meta_in_rows(f, rows, r as int) == v@);
                return string_of(&v);
            }
            c += 1;
        }
        r += 1;
    }
    String::new()
}

fn strip_name_of(t: &Vec<char>) -> (r: Vec<char>)
    ensures
        r@ == strip_name(t@),
{
    let mut r: Vec<char> = Vec::new();
    let mut i: usize = 0;
    assert(t@.take(0) =~= Seq::<char>::empty());
    while i < t.len()
        invariant
            i <= t.len(),
            r@ == strip_name(t@.take(i as int)),
        decreases t.len() - i,
    {
        assert(t@.take(i + 1).drop_last() =~= t@.take(i as int));
        let c = t[i];
        if c == '"' {
        } else if c == '\n' {
            r.push(' ');
        } else {
            r.push(c);
        }
        i += 1;
    }
    assert(t@.take(t.len() as int) =~= t@);
    r
}

fn is_totals(row: &Vec<Cell>) -> (r: bool)
    ensures
        r == is_totals_row(row@),
{
    if row.len() == 0 {
        return false;
    }
    let t = cell_chars(&row[0]);
    has_word(&t, "合计") || has_word(&t, "送货单位")
}

fn text_at_of(row: &Vec<Cell>, c: usize) -> (r: Vec<char>)
    ensures
        r@ == text_at(row@, c as int),
{
    if c < row.len() {
        trim_chars(&cell_chars(&row[c]))
    } else {
        Vec::new()
    }
}

fn number_at_of(row: &Vec<Cell>, c: Option<usize>) -> (r: i64)
    ensures
        r == number_at(row@, c),
{
    match c {
        Some(i) => if i < row.len() {
            match number_of(&row[i]) {
                Some(v) => v,
                None => 0,
            }
        } else {
            0
        },
        None => 0,
    }
}

fn row_po_of(row: &Vec<Cell>) -> (r: Vec<char>)
    ensures
        r@ == row_po(row@, 0),
{
    let mut c: usize = 0;
    while c < row.len()
        invariant
            c <= row.len(),
            row_po(row@, 0) == row_po(row@, c as int),
        decreases row.len() - c,
    {
        let t = cell_chars(&row[c]);
        if has_word(&t, "订单号") {
            let a = after_colon_of(&t);
            if a.len() > 0 {
                return a;
            }
        }
        c += 1;
    }
    Vec::new()
}

/// The record that a row makes, with the purchase-order number after it, if the row qualifies.
fn build_item(
    row: &Vec<Cell>,
    l: Layout,
    customer: &String,
    date: &String,
    delivery_no: &String,
    source: &str,
    customer_type: &str,
    po: &Vec<char>,
) -> (r: Option<(DeliveryItem, Vec<char>)>)
    ensures
        r is Some <==> qualifies(row@, l),
        r matches Some((it, next_po)) ==> next_po@ == resync(po@, row@) && it@ == row_item(
            row@,
            l,
            Stamp {
                customer: customer@,
                date: date@,
                delivery_no: delivery_no@,
                source: source@,
                customer_type: customer_type@,
            },
            next_po@,
        ),
{
    if l.product >= row.len() {
        return None;
    }
    let name = trim_chars(&strip_name_of(&cell_chars(&row[l.product])));
    if name.len() == 0 {
        return None;
    }
    if l.quantity >= row.len() {
        return None;
    }
    let quantity = match number_of(&row[l.quantity]) {
        Some(q) => q,
        None => {
            return None;
        },
    };
    let spec = text_at_of(row, l.spec);
    let unit = text_at_of(row, l.unit);
    let unit_price = number_at_of(row, l.price);
    let amount = number_at_of(row, l.amount);
    let next_po = if po.len() > 0 {
        slice_chars(po, 0, po.len())
    } else {
        row_po_of(row)
    };
    assert(po@.subrange(0, po@.len() as int) =~= po@);
    let order = match l.order_no {
        Some(i) => {
            let t = text_at_of(row, i);
            if t.len() > 0 {
                t
            } else {
                slice_chars(&next_po, 0, next_po.len())
            }
        },
        None => slice_chars(&next_po, 0, next_po.len()),
    };
    assert(next_po@.subrange(0, next_po@.len() as int) =~= next_po@);
    let it = DeliveryItem {
        product_name: string_of(&name),
        spec: string_of(&spec),
        quantity,
        unit: string_of(&unit),
        unit_price,
        amount,
        customer: customer.clone(),
        date: date.clone(),
        delivery_order_no: delivery_no.clone(),
        order_no: string_of(&order),
        source_file: String::from_str(source),
        customer_type: String::from_str(customer_type),
    };
    Some((it, next_po))
}

/// The merchandise lines of a worksheet as records, each stamped with the slip's customer,
/// date and delivery-order number, the source file and the customer type. The rows are read
/// from the row after the header row (see `layout_of`) up to the first totals row; a row makes
/// a record exactly when it has a product name and a quantity (see `sheet_records`).
pub fn extract_delivery_data(
    sheet: &Vec<Vec<Cell>>,
    source_file: &str,
    customer_type: &str,
) -> (r: Vec<DeliveryItem>)
    ensures
        item_views(r@) == sheet_records(rows_of(sheet@), source_file@, customer_type@),
        amounts_bounded(item_views(r@)),
{
    let ghost rows = rows_of(sheet@);
    let customer = meta_value(sheet, MetaField::Customer);
    let date = meta_value(sheet, MetaField::Date);
    let delivery_no = meta_value(sheet, MetaField::DeliveryNo);
    let header_po = meta_value(sheet, MetaField::OrderNo);
    let layout = locate_layout(sheet);
    let ghost st = stamp_of(rows, source_file@, customer_type@);
    let ghost total = sheet_records(rows, source_file@, customer_type@);
    let mut po = chars_of(header_po.as_str());
    let mut items: Vec<DeliveryItem> = Vec::new();
    let mut r = layout.data_start;
    assert(item_views(items@) =~= Seq::<ItemView>::empty());
    while r < sheet.len() && !is_totals(&sheet[r])
        invariant
            rows == rows_of(sheet@),
            rows.len() == sheet.len(),
            layout == layout_of(rows),
            st == (Stamp {
                customer: customer@,
                date: date@,
                delivery_no: delivery_no@,
                source: source_file@,
                customer_type: customer_type@,
            }),
            total == sheet_records(rows, source_file@, customer_type@),
            item_views(items@) + records_from(rows, layout, st, r as int, po@) == total,
            amounts_bounded(item_views(items@)),
        decreases sheet.len() - r,
    {
        let row = &sheet[r];
        assert(rows[r as int] == row@);
        let ghost before = item_views(items@);
        match build_item(
            row,
            layout,
            &customer,
            &date,
            &delivery_no,
            source_file,
            customer_type,
            &po,
        ) {
            Some((it, next_po)) => {
                items.push(it);
                assert(item_views(items@) =~= before.push(it@));
                proof {
                    lemma_cell_number_bounded(row@[layout.quantity as int]);
                    if let Some(i) = layout.amount {
                        if i < row@.len() {
                            lemma_cell_number_bounded(row@[i as int]);
                        }
                    }
                    assert forall|x: int| 0 <= x < item_views(items@).len() implies -MAX_MICROS <= (
                    #[trigger] item_views(items@)[x]).quantity <= MAX_MICROS && -MAX_MICROS
                        <= item_views(items@)[x].amount <= MAX_MICROS by {
                        if x < before.len() {
                            assert(item_views(items@)[x] == before[x]);
                        }
                    }
                }
                assert(before + records_from(rows, layout, st, r as int, po@) =~= item_views(
                    items@,
                ) + records_from(rows, layout, st, r + 1, next_po@));
                po = next_po;
            },
            None => {},
        }
        r += 1;
    }
    proof {
        if r < sheet.len() {
            assert(rows[r as int] == sheet@[r as int]@);
        }
        assert(records_from(rows, layout, st, r as int, po@) == Seq::<ItemView>::empty());
    }
    assert(item_views(items@) =~= total);
    items
}

/// The rows from `r` on, up to a totals row, that make records: each one's product name and
/// quantity, in order.
pub open spec fn gated_lines(rows: Seq<Seq<Cell>>, l: Layout, r: int) -> Seq<(Seq<char>, int)>
    decreases rows.len() - r,
{
    if r < 0 || r >= rows.len() || is_totals_row(rows[r]) {
        Seq::empty()
    } else if qualifies(rows[r], l) {
        seq![
            (
                clean_name(cell_text(rows[r][l.product as int])),
                cell_number(rows[r][l.quantity as int])->0,
            ),
        ] + gated_lines(rows, l, r + 1)
    } else {
        gated_lines(rows, l, r + 1)
    }
}

pub open spec fn name_and_quantity(v: Seq<ItemView>) -> Seq<(Seq<char>, int)> {
    v.map_values(|i: ItemView| (i.product_name, i.quantity))
}

/// Records are made from exactly those data rows whose product name is non-empty once trimmed
/// and whose quantity reads as a number: one record per such row, in order, with that row's
/// name and quantity, whatever the purchase-order number so far.
pub proof fn lemma_quantity_gating(
    rows: Seq<Seq<Cell>>,
    l: Layout,
    s: Stamp,
    r: int,
    po: Seq<char>,
)
    ensures
        name_and_quantity(records_from(rows, l, s, r, po)) == gated_lines(rows, l, r),
    decreases rows.len() - r,
{
    if r < 0 || r >= rows.len() || is_totals_row(rows[r]) {
        assert(name_and_quantity(records_from(rows, l, s, r, po)) =~= Seq::empty());
    } else if qualifies(rows[r], l) {
        let next_po = resync(po, rows[r]);
        lemma_quantity_gating(rows, l, s, r + 1, next_po);
        let head = seq![row_item(rows[r], l, s, next_po)];
        assert(name_and_quantity(head + records_from(rows, l, s, r + 1, next_po)) =~= name_and_quantity(
            head,
        ) + name_and_quantity(records_from(rows, l, s, r + 1, next_po)));
    } else {
        lemma_quantity_gating(rows, l, s, r + 1, po);
    }
}

pub proof fn lemma_no_header_from(rows: Seq<Seq<Cell>>, r: int)
    requires
        0 <= r,
        forall|i: int, c: int|
            0 <= i < HEADER_SCAN_ROWS && i < rows.len() && 0 <= c < rows[i].len() ==> (
            #[trigger] field_of(cell_text(rows[i][c]))) is None,
    ensures
        header_from(rows, r) is None,
    decreases HEADER_SCAN_ROWS - r,
{
    if r < HEADER_SCAN_ROWS && r < rows.len() {
        assert(!row_has_label(rows[r]));
        lemma_no_header_from(rows, r + 1);
    }
}

/// A sheet whose leading rows name no column is read with the default layout: product in the
/// first column, spec in the third, quantity in the fifth, unit in the sixth, no price, amount
/// or order-number column, and merchandise lines from the ninth row on.
pub proof fn lemma_header_fallback(rows: Seq<Seq<Cell>>)
    requires
        forall|i: int, c: int|
            0 <= i < HEADER_SCAN_ROWS && i < rows.len() && 0 <= c < rows[i].len() ==> (
            #[trigger] field_of(cell_text(rows[i][c]))) is None,
    ensures
        layout_of(rows) == default_layout(),
{
    lemma_no_header_from(rows, 0);
}

/// Every number read from a cell is within `MAX_MICROS`.
pub proof fn lemma_cell_number_bounded(c: Cell)
    ensures
        cell_number(c) matches Some(v) ==> -MAX_MICROS <= v <= MAX_MICROS,
{
}

/// Extraction depends on nothing but the sheet, the file's path and its customer type: two runs
/// over the same input give the same records, field for field.
pub proof fn lemma_extraction_repeatable(
    first: Seq<Vec<Cell>>,
    second: Seq<Vec<Cell>>,
    source: Seq<char>,
    customer_type: Seq<char>,
)
    requires
        first == second,
    ensures
        sheet_records(rows_of(first), source, customer_type) == sheet_records(
            rows_of(second),
            source,
            customer_type,
        ),
{
}

} // verus!
