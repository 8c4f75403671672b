//! What a per-customer monthly statement shows of its records: their order, whether an
//! order-number column is needed, and how each date is written.
use vstd::prelude::*;

use crate::aggregate::index_from;
use crate::calendar::{date_text, format_date_text};
use crate::cell::{first_parse, parse_first, strs};
use crate::models::{item_views, DeliveryItem, ItemView};
use crate::text::{chars_of, less_chars, seq_lt, slice_chars, string_of};

verus! {

/// The formats a statement tries when writing a record's date.
pub open spec fn statement_formats() -> Seq<Seq<char>> {
    seq![
        "%Y-%m-%d"@,
        "%Y/%m/%d"@,
        "%Y年%m月%d日"@,
        "%Y-%m-%d %H:%M:%S"@,
        "%d/%m/%Y"@,
        "%m/%d/%Y"@,
    ]
}

/// A record's date as a statement writes it: `YYYY-MM-DD` when a statement format reads it,
/// else the text before its first `T`.
pub open spec fn statement_date(s: Seq<char>) -> Seq<char> {
    match first_parse(s, statement_formats()) {
        Some(d) => date_text(d),
        None => match index_from(s, 'T', 0) {
            Some(i) => s.take(i),
            None => s,
        },
    }
}

fn statement_format_list() -> (r: Vec<&'static str>)
    ensures
        strs(r@) == statement_formats(),
{
    let r = vec!["%Y-%m-%d", "%Y/%m/%d", "%Y年%m月%d日", "%Y-%m-%d %H:%M:%S", "%d/%m/%Y", "%m/%d/%Y"];
    assert(strs(r@) =~= statement_formats());
    r
}

/// A record's date as a statement writes it (see `statement_date`).
pub fn format_date(date: &str) -> (r: String)
    ensures
        r@ == statement_date(date@),
{
    let s = chars_of(date);
    match parse_first(&s, &statement_format_list()) {
        Some(d) => {
            return format_date_text(d);
        },
        None => {},
    }
    let mut i: usize = 0;
    while i < s.len()
        invariant
            i <= s.len(),
            index_from(s@, 'T', 0) == index_from(s@, 'T', i as int),
            first_parse(s@, statement_formats()) is None,
            s@ == date@,
        decreases s.len() - i,
    {
        if s[i] == 'T' {
            let head = slice_chars(&s, 0, i);
            assert(head@ =~= s@.take(i as int));
            return string_of(&head);
        }
        i += 1;
    }
    string_of(&s)
}

/// Whether some record carries a purchase-order number, so that a statement shows that column.
pub fn has_order_numbers(items: &Vec<DeliveryItem>) -> (r: bool)
    ensures
        r == exists|i: int| 0 <= i < items.len() && (#[trigger] items@[i]).order_no@.len() > 0,
{
    let mut i: usize = 0;
    while i < items.len()
        invariant
            i <= items.len(),
            forall|j: int| 0 <= j < i ==> (#[trigger] items@[j]).order_no@.len() == 0,
        decreases items.len() - i,
    {
        if !items[i].order_no.as_str().is_empty() {
            return true;
        }
        i += 1;
    }
    false
}

/// Whether `p` lists each index below `n` once.
pub open spec fn is_permutation(p: Seq<int>, n: int) -> bool {
    &&& p.len() == n
    &&& forall|i: int| 0 <= i < n ==> 0 <= #[trigger] p[i] < n
    &&& forall|i: int, j: int| 0 <= i < j < n ==> #[trigger] p[i] != #[trigger] p[j]
}

/// `r` holds the records of `s` in the order `p` picks them, ordered by date text, and records of
/// equal dates in their input order.
pub open spec fn sorted_by_date(r: Seq<ItemView>, s: Seq<ItemView>, p: Seq<int>) -> bool {
    &&& is_permutation(p, s.len() as int)
    &&& r.len() == s.len()
    &&& forall|i: int| 0 <= i < r.len() ==> #[trigger] r[i] == s[p[i]]
    &&& forall|i: int, j: int|
        0 <= i < j < r.len() ==> seq_lt(#[trigger] r[i].date, #[trigger] r[j].date) || (r[i].date
            == r[j].date && p[i] < p[j])
}

/// The records ordered by their date text, as `String` compares, keeping the order of records
/// with equal dates.
pub fn sort_by_date(items: &Vec<DeliveryItem>) -> (r: Vec<DeliveryItem>)
    ensures
        exists|p: Seq<int>| sorted_by_date(item_views(r@), item_views(items@), p),
{
    let ghost iv = item_views(items@);
    let mut res: Vec<DeliveryItem> = Vec::new();
    let ghost mut p: Seq<int> = Seq::empty();
    let mut t: usize = 0;
    while t < items.len()
        invariant
            t <= items.len(),
            iv == item_views(items@),
            res.len() == t,
            p.len() == t,
            forall|x: int| 0 <= x < t ==> 0 <= #[trigger] p[x] < t,
            forall|x: int, y: int| 0 <= x < y < t ==> #[trigger] p[x] != #[trigger] p[y],
            forall|x: int| 0 <= x < t ==> (#[trigger] res@[x])@ == iv[p[x]],
            forall|x: int, y: int|
                0 <= x < y < t ==> seq_lt((#[trigger] res@[x]).date@, (#[trigger] res@[y]).date@)
                    || (res@[x].date@ == res@[y].date@ && p[x] < p[y]),
        decreases items.len() - t,
    {
        let d = chars_of(items[t].date.as_str());
        let mut k: usize = 0;
        while k < res.len() && !less_chars(&d, &chars_of(res[k].date.as_str()))
            invariant
                k <= res.len(),
                d@ == items@[t as int].date@,
                forall|x: int| 0 <= x < k ==> !seq_lt(d@, (#[trigger] res@[x]).date@),
            decreases res.len() - k,
        {
            k += 1;
        }
        let ghost old_res = res@;
        let ghost old_p = p;
        let item = items[t].duplicate();
        assert(item@ == iv[t as int]);
        res.insert(k, item);
        proof {
            p = old_p.insert(k as int, t as int);
            assert forall|x: int| 0 <= x < t + 1 implies (#[trigger] res@[x])@ == iv[p[x]] by {
                if x < k {
                    assert(res@[x] == old_res[x]);
                } else if x > k {
                    assert(res@[x] == old_res[x - 1]);
                }
            }
            assert forall|x: int, y: int| 0 <= x < y < t + 1 implies #[trigger] p[x] != #[trigger] p[y] by {
                if x < k && y > k {
                    assert(p[y] == old_p[y - 1]);
                } else if x > k {
                    assert(p[x] == old_p[x - 1] && p[y] == old_p[y - 1]);
                }
            }
            assert forall|x: int, y: int| 0 <= x < y < t + 1 implies seq_lt(
                (#[trigger] res@[x]).date@,
                (#[trigger] res@[y]).date@,
            ) || (res@[x].date@ == res@[y].date@ && p[x] < p[y]) by {
                if y < k {
                    assert(res@[x] == old_res[x] && res@[y] == old_res[y]);
                } else if y == k {
                    assert(res@[x] == old_res[x]);
                    if res@[x].date@ != d@ {
                        crate::text::lemma_lt_total(res@[x].date@, d@);
                    }
                } else if x < k {
                    assert(res@[x] == old_res[x] && res@[y] == old_res[y - 1]);
                    assert(seq_lt(d@, old_res[k as int].date@));
                    if res@[x].date@ != d@ {
                        crate::text::lemma_lt_total(res@[x].date@, d@);
                    }
                    if y - 1 > k {
                        lemma_chain(res@[x].date@, d@, old_res[k as int].date@, old_res[y - 1].date@);
                    } else {
                        lemma_chain(res@[x].date@, d@, old_res[k as int].date@, old_res[k as int].date@);
                    }
                } else if x == k {
                    assert(res@[y] == old_res[y - 1]);
                    assert(seq_lt(d@, old_res[k as int].date@));
                    if y - 1 > k {
                        if old_res[k as int].date@ != old_res[y - 1].date@ {
                            crate::text::lemma_lt_transitive(d@, old_res[k as int].date@, old_res[y - 1].date@);
                        }
                    }
                } else {
                    assert(res@[x] == old_res[x - 1] && res@[y] == old_res[y - 1]);
                }
            }
        }
        t += 1;
    }
    proof {
        assert(sorted_by_date(item_views(res@), iv, p)) by {
            assert forall|i: int| 0 <= i < res.len() implies #[trigger] item_views(res@)[i] == iv[p[i]] by {
                assert(item_views(res@)[i] == res@[i]@);
            }
            assert forall|i: int, j: int| 0 <= i < j < res.len() implies seq_lt(
                #[trigger] item_views(res@)[i].date,
                #[trigger] item_views(res@)[j].date,
            ) || (item_views(res@)[i].date == item_views(res@)[j].date && p[i] < p[j]) by {
                assert(item_views(res@)[i] == res@[i]@);
                assert(item_views(res@)[j] == res@[j]@);
            }
        }
    }
    res
}

/// `a <= b < c <= d` gives `a < d` (with `<=` meaning `<` or equal).
proof fn lemma_chain(a: Seq<char>, b: Seq<char>, c: Seq<char>, d: Seq<char>)
    requires
        seq_lt(a, b) || a == b,
        seq_lt(b, c),
        seq_lt(c, d) || c == d,
    ensures
        seq_lt(a, d),
{
    if a != b {
        crate::text::lemma_lt_transitive(a, b, c);
    }
    if c != d {
        if a != b {
            crate::text::lemma_lt_transitive(a, c, d);
        } else {
            crate::text::lemma_lt_transitive(b, c, d);
        }
    }
}

} // verus!
