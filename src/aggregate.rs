//! Views over accepted records: totals per product, and records per customer and month.
use vstd::prelude::*;

use crate::calendar::{append_all, format_year_month_text, year_month_text};
use crate::cell::{first_parse, parse_first, strs};
use crate::models::{amounts_bounded, item_views, DeliveryItem, ItemView, SummaryItem};
use crate::number::MAX_MICROS;
use crate::reconcile::{ascii_value, bounded_number};
use crate::text::{chars_of, int_chars, int_text, slice_chars, split_at_char, split_on, string_of, views};

verus! {

/// The formats a record's date is read with when grouping by month.
pub open spec fn month_formats() -> Seq<Seq<char>> {
    seq!["%Y-%m-%d"@, "%Y/%m/%d"@, "%Y年%m月%d日"@, "%Y-%m-%d %H:%M:%S"@]
}

/// The first position from `from` on where `c` occurs in `s`.
pub open spec fn index_from(s: Seq<char>, c: char, from: int) -> Option<int>
    decreases s.len() - from,
{
    if from < 0 || from >= s.len() {
        None
    } else if s[from] == c {
        Some(from)
    } else {
        index_from(s, c, from + 1)
    }
}

/// The text before the second `-` of `s`, when it has two.
pub open spec fn before_second_dash(s: Seq<char>) -> Option<Seq<char>> {
    match index_from(s, '-', 0) {
        Some(p) => match index_from(s, '-', p + 1) {
            Some(q) => Some(s.take(q)),
            None => None,
        },
        None => None,
    }
}

/// The year-month bucket of a date text: `YYYY-MM` when a month format reads it, else the text
/// before its second `-`, else "unknown".
pub open spec fn year_month_of(s: Seq<char>) -> Seq<char> {
    match first_parse(s, month_formats()) {
        Some(d) => year_month_text(d),
        None => match before_second_dash(s) {
            Some(p) => p,
            None => "unknown"@,
        },
    }
}

fn month_format_list() -> (r: Vec<&'static str>)
    ensures
        strs(r@) == month_formats(),
{
    let r = vec!["%Y-%m-%d", "%Y/%m/%d", "%Y年%m月%d日", "%Y-%m-%d %H:%M:%S"];
    assert(strs(r@) =~= month_formats());
    r
}

fn find_char(s: &Vec<char>, c: char, from: usize) -> (r: Option<usize>)
    requires
        from <= s.len(),
    ensures
        match r {
            Some(i) => index_from(s@, c, from as int) == Some(i as int) && i < s.len(),
            None => index_from(s@, c, from as int) is None,
        },
{
    let mut i = from;
    while i < s.len()
        invariant
            from <= i <= s.len(),
            index_from(s@, c, from as int) == index_from(s@, c, i as int),
        decreases s.len() - i,
    {
        if s[i] == c {
            return Some(i);
        }
        i += 1;
    }
    None
}

/// The year-month bucket of a date text (see `year_month_of`).
pub fn extract_year_month(date: &str) -> (r: String)
    ensures
        r@ == year_month_of(date@),
{
    let s = chars_of(date);
    match parse_first(&s, &month_format_list()) {
        Some(d) => {
            return format_year_month_text(d);
        },
        None => {},
    }
    match find_char(&s, '-', 0) {
        Some(p) => match find_char(&s, '-', p + 1) {
            Some(q) => {
                let head = slice_chars(&s, 0, q);
                assert(head@ =~= s@.take(q as int));
                string_of(&head)
            },
            None => String::from_str("unknown"),
        },
        None => String::from_str("unknown"),
    }
}

/// The (customer, year-month) bucket of a record.
pub open spec fn group_key(i: ItemView) -> (Seq<char>, Seq<char>) {
    (i.customer, year_month_of(i.date))
}

/// The buckets of `s`, each once, in order of first appearance.
pub open spec fn group_keys(s: Seq<ItemView>) -> Seq<(Seq<char>, Seq<char>)>
    decreases s.len(),
{
    if s.len() == 0 {
        Seq::empty()
    } else {
        let p = group_keys(s.drop_last());
        if p.contains(group_key(s.last())) {
            p
        } else {
            p.push(group_key(s.last()))
        }
    }
}

/// The records of `s` in bucket `k`, in order.
pub open spec fn group_members(s: Seq<ItemView>, k: (Seq<char>, Seq<char>)) -> Seq<ItemView>
    decreases s.len(),
{
    if s.len() == 0 {
        Seq::empty()
    } else {
        let p = group_members(s.drop_last(), k);
        if group_key(s.last()) == k {
            p.push(s.last())
        } else {
            p
        }
    }
}

/// The records of one customer in one month.
pub struct CustomerMonthGroup {
    pub customer: String,
    pub year_month: String,
    pub items: Vec<DeliveryItem>,
}

fn month_keys(items: &Vec<DeliveryItem>) -> (r: Vec<String>)
    ensures
        r.len() == items.len(),
        forall|i: int| 0 <= i < items.len() ==> (#[trigger] r@[i])@ == year_month_of(items@[i].date@),
{
    let mut r: Vec<String> = Vec::new();
    let mut i: usize = 0;
    while i < items.len()
        invariant
            i <= items.len(),
            r.len() == i,
            forall|j: int| 0 <= j < i ==> (#[trigger] r@[j])@ == year_month_of(items@[j].date@),
        decreases items.len() - i,
    {
        r.push(extract_year_month(items[i].date.as_str()));
        i += 1;
    }
    r
}

/// Groups records by customer and year-month (see `year_month_of`): one group per bucket, in
/// order of first appearance, each holding its records in input order.
pub fn group_by_customer_month(items: &Vec<DeliveryItem>) -> (r: Vec<CustomerMonthGroup>)
    ensures
        r.len() == group_keys(item_views(items@)).len(),
        forall|t: int|
            0 <= t < r.len() ==> ((#[trigger] r@[t]).customer@, r@[t].year_month@) == group_keys(
                item_views(items@),
            )[t] && item_views(r@[t].items@) == group_members(
                item_views(items@),
                group_keys(item_views(items@))[t],
            ),
{
    let ghost iv = item_views(items@);
    let yms = month_keys(items);
    let mut reps: Vec<usize> = Vec::new();
    let mut i: usize = 0;
    assert(iv.take(0) =~= Seq::<ItemView>::empty());
    while i < items.len()
        invariant
            i <= items.len(),
            iv == item_views(items@),
            yms.len() == items.len(),
            forall|j: int| 0 <= j < items.len() ==> (#[trigger] yms@[j])@ == year_month_of(items@[j].date@),
            reps.len() == group_keys(iv.take(i as int)).len(),
            forall|t: int| 0 <= t < reps.len() ==> (#[trigger] reps@[t]) < i && group_key(iv[reps@[t] as int])
                == group_keys(iv.take(i as int))[t],
        decreases items.len() - i,
    {
        let ghost keys = group_keys(iv.take(i as int));
        assert(iv.take(i + 1).drop_last() =~= iv.take(i as int));
        assert(iv.take(i + 1).last() == iv[i as int]);
        let mut t: usize = 0;
        let mut found = false;
        while t < reps.len()
            invariant
                t <= reps.len(),
                iv == item_views(items@),
                yms.len() == items.len(),
                i < items.len(),
                forall|j: int| 0 <= j < items.len() ==> (#[trigger] yms@[j])@ == year_month_of(items@[j].date@),
                reps.len() == keys.len(),
                forall|u: int| 0 <= u < reps.len() ==> (#[trigger] reps@[u]) < i && group_key(iv[reps@[u] as int])
                    == keys[u],
                found ==> keys.contains(group_key(iv[i as int])),
                !found ==> forall|u: int| 0 <= u < t ==> keys[u] != group_key(iv[i as int]),
            decreases reps.len() - t,
        {
            let ri = reps[t];
            assert(yms@[ri as int]@ == year_month_of(items@[ri as int].date@));
            assert(yms@[i as int]@ == year_month_of(items@[i as int].date@));
            if items[ri].customer == items[i].customer && yms[ri] == yms[i] {
                assert(keys[t as int] == group_key(iv[i as int]));
                found = true;
            }
            t += 1;
        }
        if !found {
            reps.push(i);
            proof {
                assert(!keys.contains(group_key(iv[i as int])));
            }
        }
        i += 1;
    }
    assert(iv.take(items.len() as int) =~= iv);
    let ghost keys = group_keys(iv);
    let mut groups: Vec<CustomerMonthGroup> = Vec::new();
    let mut t: usize = 0;
    while t < reps.len()
        invariant
            t <= reps.len(),
            iv == item_views(items@),
            keys == group_keys(iv),
            yms.len() == items.len(),
            forall|j: int| 0 <= j < items.len() ==> (#[trigger] yms@[j])@ == year_month_of(items@[j].date@),
            reps.len() == keys.len(),
            forall|u: int| 0 <= u < reps.len() ==> (#[trigger] reps@[u]) < items.len() && group_key(iv[reps@[u] as int])
                == keys[u],
            groups.len() == t,
            forall|u: int|
                0 <= u < t ==> ((#[trigger] groups@[u]).customer@, groups@[u].year_month@) == keys[u]
                    && item_views(groups@[u].items@) == group_members(iv, keys[u]),
        decreases reps.len() - t,
    {
        let ri = reps[t];
        let ghost k = keys[t as int];
        assert(yms@[ri as int]@ == year_month_of(items@[ri as int].date@));
        let mut members: Vec<DeliveryItem> = Vec::new();
        let mut j: usize = 0;
        assert(iv.take(0) =~= Seq::<ItemView>::empty());
        while j < items.len()
            invariant
                j <= items.len(),
                ri < items.len(),
                iv == item_views(items@),
                yms.len() == items.len(),
                forall|x: int| 0 <= x < items.len() ==> (#[trigger] yms@[x])@ == year_month_of(items@[x].date@),
                group_key(iv[ri as int]) == k,
                item_views(members@) == group_members(iv.take(j as int), k),
            decreases items.len() - j,
        {
            assert(iv.take(j + 1).drop_last() =~= iv.take(j as int));
            assert(iv.take(j + 1).last() == iv[j as int]);
            assert(yms@[j as int]@ == year_month_of(items@[j as int].date@));
            assert(yms@[ri as int]@ == year_month_of(items@[ri as int].date@));
            if items[j].customer == items[ri].customer && yms[j] == yms[ri] {
                let ghost before = members@;
                members.push(items[j].duplicate());
                assert(item_views(members@) =~= item_views(before).push(iv[j as int]));
            }
            j += 1;
        }
        assert(iv.take(items.len() as int) =~= iv);
        groups.push(
            CustomerMonthGroup {
                customer: items[ri].customer.clone(),
                year_month: yms[ri].clone(),
                items: members,
            },
        );
        t += 1;
    }
    groups
}

/// The (product, spec, unit) a record is summed under.
pub open spec fn summary_key(i: ItemView) -> (Seq<char>, Seq<char>, Seq<char>) {
    (i.product_name, i.spec, i.unit)
}

/// The summary keys of `s`, each once, in order of first appearance.
pub open spec fn summary_keys(s: Seq<ItemView>) -> Seq<(Seq<char>, Seq<char>, Seq<char>)>
    decreases s.len(),
{
    if s.len() == 0 {
        Seq::empty()
    } else {
        let p = summary_keys(s.drop_last());
        if p.contains(summary_key(s.last())) {
            p
        } else {
            p.push(summary_key(s.last()))
        }
    }
}

pub open spec fn total_quantity(s: Seq<ItemView>, k: (Seq<char>, Seq<char>, Seq<char>)) -> int
    decreases s.len(),
{
    if s.len() == 0 {
        0
    } else {
        total_quantity(s.drop_last(), k) + if summary_key(s.last()) == k {
            s.last().quantity
        } else {
            0
        }
    }
}

pub open spec fn total_amount(s: Seq<ItemView>, k: (Seq<char>, Seq<char>, Seq<char>)) -> int
    decreases s.len(),
{
    if s.len() == 0 {
        0
    } else {
        total_amount(s.drop_last(), k) + if summary_key(s.last()) == k {
            s.last().amount
        } else {
            0
        }
    }
}

/// The non-empty customers of the records under `k`, each once, in order of first appearance.
pub open spec fn customers_of(s: Seq<ItemView>, k: (Seq<char>, Seq<char>, Seq<char>)) -> Seq<
    Seq<char>,
>
    decreases s.len(),
{
    if s.len() == 0 {
        Seq::empty()
    } else {
        let p = customers_of(s.drop_last(), k);
        let it = s.last();
        if summary_key(it) == k && it.customer.len() > 0 && !p.contains(it.customer) {
            p.push(it.customer)
        } else {
            p
        }
    }
}

/// Names joined with ", ".
pub open spec fn join_names(v: Seq<Seq<char>>) -> Seq<char>
    decreases v.len(),
{
    if v.len() == 0 {
        Seq::empty()
    } else if v.len() == 1 {
        v[0]
    } else {
        join_names(v.drop_last()) + ", "@ + v.last()
    }
}

/// `n / d` rounded to the nearest whole number, halves away from zero (`d > 0`).
pub open spec fn round_div(n: int, d: int) -> int {
    if n >= 0 {
        (2 * n + d) / (2 * d)
    } else {
        -((-2 * n + d) / (2 * d))
    }
}

/// The average price in hundredths: amount over quantity rounded to two decimals, or 0 when the
/// quantity is not positive.
pub open spec fn average_cents(amount: int, quantity: int) -> int {
    if quantity > 0 {
        round_div(100 * amount, quantity)
    } else {
        0
    }
}

/// A `SummaryItem` as mathematical values.
#[verifier::ext_equal]
pub struct SummaryView {
    pub product_name: Seq<char>,
    pub spec: Seq<char>,
    pub unit: Seq<char>,
    pub quantity: int,
    pub average_price: int,
    pub amount: int,
    pub customers: Seq<char>,
}

impl View for SummaryItem {
    type V = SummaryView;

    open spec fn view(&self) -> SummaryView {
        SummaryView {
            product_name: self.product_name@,
            spec: self.spec@,
            unit: self.unit@,
            quantity: self.quantity as int,
            average_price: self.average_price as int,
            amount: self.amount as int,
            customers: self.customers@,
        }
    }
}

/// The summary of the records of `s` under `k`.
pub open spec fn summary_row(s: Seq<ItemView>, k: (Seq<char>, Seq<char>, Seq<char>)) -> SummaryView {
    SummaryView {
        product_name: k.0,
        spec: k.1,
        unit: k.2,
        quantity: total_quantity(s, k),
        average_price: average_cents(total_amount(s, k), total_quantity(s, k)),
        amount: total_amount(s, k),
        customers: join_names(customers_of(s, k)),
    }
}

pub open spec fn row_key(r: SummaryView) -> (Seq<char>, Seq<char>, Seq<char>) {
    (r.product_name, r.spec, r.unit)
}

pub proof fn lemma_summary_keys_distinct(s: Seq<ItemView>)
    ensures
        summary_keys(s).no_duplicates(),
    decreases s.len(),
{
    if s.len() > 0 {
        lemma_summary_keys_distinct(s.drop_last());
    }
}

pub proof fn lemma_totals_bounded(s: Seq<ItemView>, k: (Seq<char>, Seq<char>, Seq<char>))
    requires
        amounts_bounded(s),
    ensures
        -s.len() * MAX_MICROS <= total_quantity(s, k) <= s.len() * MAX_MICROS,
        -s.len() * MAX_MICROS <= total_amount(s, k) <= s.len() * MAX_MICROS,
    decreases s.len(),
{
    if s.len() > 0 {
        assert(amounts_bounded(s.drop_last())) by {
            assert forall|i: int| 0 <= i < s.drop_last().len() implies -MAX_MICROS <= (
            #[trigger] s.drop_last()[i]).quantity <= MAX_MICROS && -MAX_MICROS
                <= s.drop_last()[i].amount <= MAX_MICROS by {
                assert(s.drop_last()[i] == s[i]);
            }
        }
        lemma_totals_bounded(s.drop_last(), k);
        assert(s.last() == s[s.len() - 1]);
    }
}

fn same_summary_key(a: &DeliveryItem, b: &DeliveryItem) -> (r: bool)
    ensures
        r == (summary_key(a@) == summary_key(b@)),
{
    a.product_name == b.product_name && a.spec == b.spec && a.unit == b.unit
}

fn has_name(v: &Vec<String>, name: &String) -> (r: bool)
    ensures
        r == v@.map_values(|s: String| s@).contains(name@),
{
    let ghost names = v@.map_values(|s: String| s@);
    let mut i: usize = 0;
    while i < v.len()
        invariant
            i <= v.len(),
            names == v@.map_values(|s: String| s@),
            forall|j: int| 0 <= j < i ==> names[j] != name@,
        decreases v.len() - i,
    {
        if v[i] == *name {
            assert(names[i as int] == name@);
            return true;
        }
        i += 1;
    }
    false
}

fn join_list(v: &Vec<String>) -> (r: String)
    ensures
        r@ == join_names(v@.map_values(|s: String| s@)),
{
    let ghost names = v@.map_values(|s: String| s@);
    let mut m = String::new();
    let mut k: usize = 0;
    assert(names.take(0) =~= Seq::<Seq<char>>::empty());
    while k < v.len()
        invariant
            k <= v.len(),
            names == v@.map_values(|s: String| s@),
            m@ == join_names(names.take(k as int)),
        decreases v.len() - k,
    {
        assert(names.take(k + 1).drop_last() =~= names.take(k as int));
        assert(names.take(k + 1).last() == v@[k as int]@);
        if k > 0 {
            m.append(", ");
        } else {
            assert(m@ =~= Seq::<char>::empty());
        }
        m.append(v[k].as_str());
        proof {
            if k == 0 {
                assert(m@ =~= names.take(1)[0]);
            }
        }
        k += 1;
    }
    assert(names.take(v.len() as int) =~= names);
    m
}

/// `n / d` rounded half away from zero.
fn round_half_away(n: i128, d: i128) -> (r: i128)
    requires
        d > 0,
        -10_000_000_000_000_000_000_000_000_000_000_000_000 <= n
            <= 10_000_000_000_000_000_000_000_000_000_000_000_000,
        d <= 1_000_000_000_000_000_000_000_000_000_000_000_000,
    ensures
        r == round_div(n as int, d as int),
{
    let den = 2 * d;
    if n >= 0 {
        let num = 2 * n + d;
        num / den
    } else {
        let m = -n;
        let num = 2 * m + d;
        -(num / den)
    }
}

/// The summary row of the records under the key of `items[ri]`.
fn summarize_key(items: &Vec<DeliveryItem>, ri: usize) -> (r: SummaryItem)
    requires
        ri < items.len(),
        amounts_bounded(item_views(items@)),
    ensures
        r@ == summary_row(item_views(items@), summary_key(items@[ri as int]@)),
{
    let ghost iv = item_views(items@);
    let ghost k = summary_key(items@[ri as int]@);
    let mut q: i128 = 0;
    let mut a: i128 = 0;
    let mut cs: Vec<String> = Vec::new();
    let mut j: usize = 0;
    assert(iv.take(0) =~= Seq::<ItemView>::empty());
    while j < items.len()
        invariant
            j <= items.len(),
            ri < items.len(),
            iv == item_views(items@),
            amounts_bounded(iv),
            k == summary_key(items@[ri as int]@),
            q == total_quantity(iv.take(j as int), k),
            a == total_amount(iv.take(j as int), k),
            cs@.map_values(|s: String| s@) == customers_of(iv.take(j as int), k),
        decreases items.len() - j,
    {
        let ghost t1 = iv.take(j + 1);
        assert(t1.drop_last() =~= iv.take(j as int));
        assert(t1.last() == iv[j as int]);
        assert(iv[j as int] == items@[j as int]@);
        proof {
            lemma_totals_bounded(iv.take(j as int), k);
            assert(amounts_bounded(iv.take(j as int))) by {
                assert forall|x: int| 0 <= x < iv.take(j as int).len() implies -MAX_MICROS <= (
                #[trigger] iv.take(j as int)[x]).quantity <= MAX_MICROS && -MAX_MICROS
                    <= iv.take(j as int)[x].amount <= MAX_MICROS by {
                    assert(iv.take(j as int)[x] == iv[x]);
                }
            }
            lemma_totals_bounded(iv.take(j as int), k);
            assert(-MAX_MICROS <= iv[j as int].quantity <= MAX_MICROS);
        }
        if same_summary_key(&items[ri], &items[j]) {
            assert(j * MAX_MICROS <= 18_446_744_073_709_551_615 * 1_000_000_000_000_000) by (
            nonlinear_arith)
                requires
                    j <= 18_446_744_073_709_551_615,
            ;
            q = q + items[j].quantity as i128;
            a = a + items[j].amount as i128;
            if !items[j].customer.as_str().is_empty() && !has_name(&cs, &items[j].customer) {
                let ghost before = cs@.map_values(|s: String| s@);
                cs.push(items[j].customer.clone());
                assert(cs@.map_values(|s: String| s@) =~= before.push(items@[j as int].customer@));
            }
        }
        j += 1;
    }
    assert(iv.take(items.len() as int) =~= iv);
    proof {
        lemma_totals_bounded(iv, k);
        assert(items.len() * MAX_MICROS <= 18_446_744_073_709_551_615 * 1_000_000_000_000_000) by (
        nonlinear_arith)
            requires
                items.len() <= 18_446_744_073_709_551_615,
        ;
    }
    let avg = if q > 0 {
        round_half_away(100 * a, q)
    } else {
        0
    };
    SummaryItem {
        product_name: items[ri].product_name.clone(),
        spec: items[ri].spec.clone(),
        unit: items[ri].unit.clone(),
        quantity: q,
        average_price: avg,
        amount: a,
        customers: join_list(&cs),
    }
}

fn copy_row(r: &SummaryItem) -> (c: SummaryItem)
    ensures
        c@ == r@,
{
    SummaryItem {
        product_name: r.product_name.clone(),
        spec: r.spec.clone(),
        unit: r.unit.clone(),
        quantity: r.quantity,
        average_price: r.average_price,
        amount: r.amount,
        customers: r.customers.clone(),
    }
}

/// One summary row per (product, spec, unit) of the records: total quantity, total amount,
/// average price and customers (see `summary_row`); ordered by total amount, largest first,
/// and rows of equal amount in the order their key first appears.
pub fn generate_summary(items: &Vec<DeliveryItem>) -> (r: Vec<SummaryItem>)
    requires
        amounts_bounded(item_views(items@)),
    ensures
        r.len() == summary_keys(item_views(items@)).len(),
        forall|i: int|
            0 <= i < r.len() ==> summary_keys(item_views(items@)).contains(
                row_key((#[trigger] r@[i])@),
            ) && r@[i]@ == summary_row(item_views(items@), row_key(r@[i]@)),
        forall|i: int, j: int|
            0 <= i < j < r.len() ==> (#[trigger] r@[i]).amount > (#[trigger] r@[j]).amount || (
            r@[i].amount == r@[j].amount && summary_keys(item_views(items@)).index_of(
                row_key(r@[i]@),
            ) < summary_keys(item_views(items@)).index_of(row_key(r@[j]@))),
{
    let ghost iv = item_views(items@);
    let mut reps: Vec<usize> = Vec::new();
    let mut i: usize = 0;
    assert(iv.take(0) =~= Seq::<ItemView>::empty());
    while i < items.len()
        invariant
            i <= items.len(),
            iv == item_views(items@),
            reps.len() == summary_keys(iv.take(i as int)).len(),
            forall|t: int| 0 <= t < reps.len() ==> (#[trigger] reps@[t]) < i && summary_key(iv[reps@[t] as int])
                == summary_keys(iv.take(i as int))[t],
        decreases items.len() - i,
    {
        let ghost keys = summary_keys(iv.take(i as int));
        assert(iv.take(i + 1).drop_last() =~= iv.take(i as int));
        assert(iv.take(i + 1).last() == iv[i as int]);
        let mut t: usize = 0;
        let mut found = false;
        while t < reps.len()
            invariant
                t <= reps.len(),
                iv == item_views(items@),
                i < items.len(),
                reps.len() == keys.len(),
                forall|u: int| 0 <= u < reps.len() ==> (#[trigger] reps@[u]) < i && summary_key(iv[reps@[u] as int])
                    == keys[u],
                found ==> keys.contains(summary_key(iv[i as int])),
                !found ==> forall|u: int| 0 <= u < t ==> keys[u] != summary_key(iv[i as int]),
            decreases reps.len() - t,
        {
            if same_summary_key(&items[reps[t]], &items[i]) {
                assert(keys[t as int] == summary_key(iv[i as int]));
                found = true;
            }
            t += 1;
        }
        if !found {
            reps.push(i);
        }
        i += 1;
    }
    assert(iv.take(items.len() as int) =~= iv);
    let ghost keys = summary_keys(iv);
    proof {
        lemma_summary_keys_distinct(iv);
    }
    let mut res: Vec<SummaryItem> = Vec::new();
    let ghost mut ranks: Seq<int> = Seq::empty();
    let mut t: usize = 0;
    while t < reps.len()
        invariant
            t <= reps.len(),
            iv == item_views(items@),
            amounts_bounded(iv),
            keys == summary_keys(iv),
            reps.len() == keys.len(),
            forall|u: int| 0 <= u < reps.len() ==> (#[trigger] reps@[u]) < items.len() && summary_key(iv[reps@[u] as int])
                == keys[u],
            res.len() == t,
            ranks.len() == t,
            forall|x: int| 0 <= x < t ==> 0 <= #[trigger] ranks[x] < t,
            forall|x: int| 0 <= x < t ==> (#[trigger] res@[x])@ == summary_row(iv, keys[ranks[x]]),
            forall|x: int, y: int|
                0 <= x < y < t ==> (#[trigger] res@[x]).amount > (#[trigger] res@[y]).amount || (
                res@[x].amount == res@[y].amount && ranks[x] < ranks[y]),
        decreases reps.len() - t,
    {
        let row = summarize_key(items, reps[t]);
        let mut p: usize = 0;
        while p < res.len() && res[p].amount >= row.amount
            invariant
                p <= res.len(),
                forall|x: int| 0 <= x < p ==> (#[trigger] res@[x]).amount >= row.amount,
            decreases res.len() - p,
        {
            p += 1;
        }
        let ghost old_res = res@;
        let ghost old_ranks = ranks;
        res.insert(p, row);
        proof {
            ranks = old_ranks.insert(p as int, t as int);
            assert forall|x: int, y: int| 0 <= x < y < t + 1 implies (#[trigger] res@[x]).amount > (
            #[trigger] res@[y]).amount || (res@[x].amount == res@[y].amount && ranks[x] < ranks[y]) by {
                if y < p {
                    assert(res@[x] == old_res[x] && res@[y] == old_res[y]);
                } else if y == p {
                    assert(res@[x] == old_res[x]);
                } else if x < p {
                    assert(res@[x] == old_res[x] && res@[y] == old_res[y - 1]);
                    if y - 1 > p {
                        assert(old_res[p as int].amount < row.amount);
                    }
                } else if x == p {
                    assert(res@[y] == old_res[y - 1]);
                    if y - 1 > p {
                        assert(old_res[p as int].amount < row.amount);
                    }
                } else {
                    assert(res@[x] == old_res[x - 1] && res@[y] == old_res[y - 1]);
                }
            }
            assert forall|x: int| 0 <= x < t + 1 implies (#[trigger] res@[x])@ == summary_row(iv, keys[ranks[x]]) by {
                if x < p {
                    assert(res@[x] == old_res[x]);
                } else if x > p {
                    assert(res@[x] == old_res[x - 1]);
                }
            }
        }
        t += 1;
    }
    proof {
        assert forall|i: int| 0 <= i < res.len() implies keys.contains(row_key((#[trigger] res@[i])@))
            && res@[i]@ == summary_row(iv, row_key(res@[i]@)) by {
            assert(row_key(res@[i]@) == keys[ranks[i]]);
        }
        assert forall|i: int| 0 <= i < res.len() implies keys.index_of(row_key((#[trigger] res@[i])@))
            == ranks[i] by {
            assert(row_key(res@[i]@) == keys[ranks[i]]);
            let w = keys.index_of(keys[ranks[i]]);
            assert(keys.contains(keys[ranks[i]]));
        }
    }
    res
}

/// A number as `str::parse` reads it for an integer type whose largest value is `max`, from a
/// text without `-`: an optional `+`, then ASCII digits.
pub open spec fn unsigned_value(p: Seq<char>, max: int) -> Option<int> {
    if p.len() > 0 && p[0] == '+' {
        bounded_number(p.drop_first(), max)
    } else {
        bounded_number(p, max)
    }
}

/// "YYYY-MM" written as "YYYY年M月" when it is a year and a month; any other text unchanged.
pub open spec fn month_label(ym: Seq<char>) -> Seq<char> {
    let parts = split_on(ym, '-');
    if parts.len() == 2 && unsigned_value(parts[0], i32::MAX as int) is Some && unsigned_value(
        parts[1],
        u32::MAX as int,
    ) is Some {
        int_text(unsigned_value(parts[0], i32::MAX as int)->0) + "年"@ + int_text(
            unsigned_value(parts[1], u32::MAX as int)->0,
        ) + "月"@
    } else {
        ym
    }
}

fn unsigned_of(p: &Vec<char>, max: u64) -> (r: Option<u64>)
    requires
        max <= u32::MAX,
    ensures
        r is Some <==> unsigned_value(p@, max as int) is Some,
        r matches Some(v) ==> v == unsigned_value(p@, max as int)->0,
{
    if p.len() > 0 && p[0] == '+' {
        let rest = slice_chars(p, 1, p.len());
        assert(rest@ =~= p@.drop_first());
        ascii_value(&rest, max)
    } else {
        ascii_value(p, max)
    }
}

/// A year-month bucket written for a statement title (see `month_label`).
pub fn format_year_month(year_month: &str) -> (r: String)
    ensures
        r@ == month_label(year_month@),
{
    let v = chars_of(year_month);
    let parts = split_at_char(&v, '-');
    if parts.len() == 2 {
        assert(views(parts@)[0] == parts@[0]@ && views(parts@)[1] == parts@[1]@);
        match (unsigned_of(&parts[0], 2147483647), unsigned_of(&parts[1], 4294967295)) {
            (Some(y), Some(m)) => {
                let mut out = int_chars(y as i64);
                append_all(&mut out, &chars_of("年"));
                let mc = int_chars(m as i64);
                append_all(&mut out, &mc);
                append_all(&mut out, &chars_of("月"));
                return string_of(&out);
            },
            _ => {},
        }
    }
    String::from_str(year_month)
}

} // verus!
