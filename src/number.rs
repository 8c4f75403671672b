//! Decimal numbers read from cell text, held as whole millionths.
use vstd::prelude::*;


verus! {

/// Millionths in one unit: every quantity, price and amount is a count of millionths.
pub const MICROS_PER_UNIT: i64 = 1_000_000;

/// The largest magnitude, in millionths, that a number read from a cell may have
/// (one thousand million units).
pub const MAX_MICROS: i64 = 1_000_000_000_000_000;

pub open spec fn is_digit(c: char) -> bool {
    '0' <= c && c <= '9'
}

pub open spec fn digit_val(c: char) -> int {
    (c as u32) as int - 48
}

/// The value of a run of decimal digits, most significant first.
pub open spec fn digits_val(s: Seq<char>) -> int
    decreases s.len(),
{
    if s.len() == 0 {
        0
    } else {
        digits_val(s.drop_last()) * 10 + digit_val(s.last())
    }
}

pub open spec fn all_digits(s: Seq<char>) -> bool {
    forall|i: int| 0 <= i < s.len() ==> is_digit(#[trigger] s[i])
}

/// The length of the run of digits that `s` starts with.
pub open spec fn lead_digits(s: Seq<char>) -> nat
    decreases s.len(),
{
    if s.len() > 0 && is_digit(s[0]) {
        1 + lead_digits(s.drop_first())
    } else {
        0
    }
}

pub open spec fn pow10(k: nat) -> int
    decreases k,
{
    if k == 0 {
        1
    } else {
        10 * pow10((k - 1) as nat)
    }
}

pub open spec fn sign_len(t: Seq<char>) -> int {
    if t.len() > 0 && (t[0] == '+' || t[0] == '-') {
        1
    } else {
        0
    }
}

/// The whole and fractional digits of a decimal literal: an optional sign, then digits with at
/// most one `.` among or around them, and at least one digit.
pub open spec fn decimal_split(t: Seq<char>) -> Option<(Seq<char>, Seq<char>)> {
    let b = t.skip(sign_len(t));
    let n = lead_digits(b) as int;
    let rest = b.skip(n);
    if rest.len() == 0 {
        if n > 0 {
            Some((b, Seq::empty()))
        } else {
            None
        }
    } else if rest[0] == '.' && all_digits(rest.drop_first()) && (n > 0 || rest.len() > 1) {
        Some((b.take(n), rest.drop_first()))
    } else {
        None
    }
}

/// The first six fractional digits as millionths.
pub open spec fn frac_micros(f: Seq<char>) -> int {
    if f.len() >= 6 {
        digits_val(f.take(6))
    } else {
        digits_val(f) * pow10((6 - f.len()) as nat)
    }
}

/// One more millionth when the seventh fractional digit is 5 or more.
pub open spec fn round_up(f: Seq<char>) -> int {
    if f.len() > 6 && digit_val(f[6]) >= 5 {
        1
    } else {
        0
    }
}

/// The value of the decimal literal `t` in millionths, rounded half away from zero, when `t` is
/// such a literal and the value is within `MAX_MICROS`.
pub open spec fn decimal_micros(t: Seq<char>) -> Option<int> {
    match decimal_split(t) {
        Some((w, f)) => {
            let m = digits_val(w) * 1_000_000 + frac_micros(f) + round_up(f);
            let v = if t[0] == '-' {
                -m
            } else {
                m
            };
            if -MAX_MICROS <= v <= MAX_MICROS {
                Some(v)
            } else {
                None
            }
        },
        None => None,
    }
}

pub open spec fn opt_int(o: Option<i64>) -> Option<int> {
    match o {
        Some(v) => Some(v as int),
        None => None,
    }
}

pub proof fn lemma_digits_nonneg(s: Seq<char>)
    requires
        all_digits(s),
    ensures
        digits_val(s) >= 0,
    decreases s.len(),
{
    if s.len() > 0 {
        assert(all_digits(s.drop_last()));
        lemma_digits_nonneg(s.drop_last());
    }
}

/// A run of digits is worth at least as much as any of its prefixes.
pub proof fn lemma_digits_prefix(s: Seq<char>, k: int)
    requires
        all_digits(s),
        0 <= k <= s.len(),
    ensures
        digits_val(s.take(k)) <= digits_val(s),
    decreases s.len(),
{
    if k < s.len() {
        assert(all_digits(s.drop_last()));
        lemma_digits_prefix(s.drop_last(), k);
        lemma_digits_nonneg(s.drop_last());
        assert(s.drop_last().take(k) =~= s.take(k));
    } else {
        assert(s.take(k) =~= s);
    }
}

pub proof fn lemma_digits_step(s: Seq<char>, k: int)
    requires
        0 <= k < s.len(),
    ensures
        digits_val(s.take(k + 1)) == digits_val(s.take(k)) * 10 + digit_val(s[k]),
{
    assert(s.take(k + 1).drop_last() =~= s.take(k));
}

pub proof fn lemma_lead_digits_skip(s: Seq<char>, i: int)
    requires
        0 <= i < s.len(),
        is_digit(s[i]),
        lead_digits(s) == i + lead_digits(s.skip(i)),
    ensures
        lead_digits(s) == i + 1 + lead_digits(s.skip(i + 1)),
{
    assert(s.skip(i).drop_first() =~= s.skip(i + 1));
}

pub proof fn lemma_pow10_six()
    ensures
        pow10(6) == 1_000_000,
{
    assert(pow10(0) == 1);
    assert(pow10(1) == 10);
    assert(pow10(2) == 100);
    assert(pow10(3) == 1_000);
    assert(pow10(4) == 10_000);
    assert(pow10(5) == 100_000);
}

pub proof fn lemma_pow10_pos(k: nat)
    ensures
        pow10(k) >= 1,
    decreases k,
{
    if k > 0 {
        lemma_pow10_pos((k - 1) as nat);
    }
}

/// A run of `n` digits is worth less than `10^n`.
pub proof fn lemma_digits_bound(s: Seq<char>)
    requires
        all_digits(s),
    ensures
        0 <= digits_val(s) < pow10(s.len()),
    decreases s.len(),
{
    if s.len() > 0 {
        assert(all_digits(s.drop_last()));
        lemma_digits_bound(s.drop_last());
        let a = digits_val(s.drop_last());
        let p = pow10((s.len() - 1) as nat);
        assert(is_digit(s[s.len() - 1]));
        assert(a * 10 + digit_val(s.last()) < p * 10) by (nonlinear_arith)
            requires
                0 <= a < p,
                0 <= digit_val(s.last()) <= 9,
        ;
    }
}

pub proof fn lemma_frac_nonneg(f: Seq<char>)
    requires
        all_digits(f),
    ensures
        0 <= frac_micros(f) < 1_000_000,
        0 <= round_up(f) <= 1,
{
    if f.len() >= 6 {
        assert(all_digits(f.take(6)));
        lemma_digits_bound(f.take(6));
        lemma_pow10_six();
    } else {
        lemma_digits_bound(f);
        let k = (6 - f.len()) as nat;
        lemma_pow10_shift(f.len(), k);
        lemma_pow10_pos(k);
        lemma_pow10_six();
        let a = digits_val(f);
        assert(a * pow10(k) < pow10(f.len()) * pow10(k)) by (nonlinear_arith)
            requires
                0 <= a < pow10(f.len()),
                pow10(k) >= 1,
        ;
        assert(a * pow10(k) >= 0) by (nonlinear_arith)
            requires
                0 <= a,
                pow10(k) >= 1,
        ;
    }
}

pub proof fn lemma_pow10_shift(a: nat, b: nat)
    ensures
        pow10(a) * pow10(b) == pow10(a + b),
    decreases a,
{
    if a > 0 {
        lemma_pow10_shift((a - 1) as nat, b);
        assert(pow10(a) * pow10(b) == 10 * (pow10((a - 1) as nat) * pow10(b))) by (nonlinear_arith)
            requires
                pow10(a) == 10 * pow10((a - 1) as nat),
        ;
    }
}

/// The digit run that `s` starts with is made of digits and ends where `s` or the digits end.
pub proof fn lemma_lead_all_digits(s: Seq<char>)
    ensures
        lead_digits(s) <= s.len(),
        all_digits(s.take(lead_digits(s) as int)),
        lead_digits(s) < s.len() ==> !is_digit(s[lead_digits(s) as int]),
    decreases s.len(),
{
    if s.len() > 0 && is_digit(s[0]) {
        lemma_lead_all_digits(s.drop_first());
        let l = lead_digits(s.drop_first()) as int;
        assert forall|i: int| 0 <= i < l + 1 implies is_digit(#[trigger] s.take(l + 1)[i]) by {
            if i > 0 {
                assert(s.take(l + 1)[i] == s.drop_first().take(l)[i - 1]);
            }
        }
        if l + 1 < s.len() {
            assert(s[l + 1] == s.drop_first()[l]);
        }
    }
}

pub fn is_digit_char(c: char) -> (r: bool)
    ensures
        r == is_digit(c),
{
    '0' <= c && c <= '9'
}

/// The run of digits of `t` from `start`: where it ends, and its value unless that passes 10^9.
fn whole_run(t: &Vec<char>, start: usize) -> (r: (usize, Option<u64>))
    requires
        start <= t.len(),
    ensures
        start <= r.0 <= t.len(),
        r.0 - start == lead_digits(t@.skip(start as int)),
        r.1 matches Some(w) ==> w == digits_val(t@.subrange(start as int, r.0 as int)) && w
            <= 1_000_000_000,
        r.1 is None ==> digits_val(t@.subrange(start as int, r.0 as int)) > 1_000_000_000,
        all_digits(t@.subrange(start as int, r.0 as int)),
{
    let n = t.len();
    let ghost b = t@.skip(start as int);
    assert(b.skip(0) =~= b);
    assert(b.take(0) =~= Seq::<char>::empty());
    let mut i = start;
    let mut w: u64 = 0;
    let mut big = false;
    while i < n && is_digit_char(t[i])
        invariant
            start <= i <= n == t.len(),
            b == t@.skip(start as int),
            lead_digits(b) == (i - start) + lead_digits(b.skip(i - start)),
            all_digits(b.take(i - start)),
            !big ==> w == digits_val(b.take(i - start)) && w <= 1_000_000_000,
            big ==> digits_val(b.take(i - start)) > 1_000_000_000,
        decreases n - i,
    {
        let d = (t[i] as u32 - 48) as u64;
        proof {
            assert(b[i - start] == t@[i as int]);
            lemma_digits_step(b, i - start);
            lemma_lead_digits_skip(b, i - start);
            assert(all_digits(b.take(i - start + 1))) by {
                assert forall|j: int| 0 <= j < i - start + 1 implies is_digit(
                    #[trigger] b.take(i - start + 1)[j],
                ) by {
                    if j < i - start {
                        assert(b.take(i - start + 1)[j] == b.take(i - start)[j]);
                    }
                }
            }
            lemma_digits_nonneg(b.take(i - start));
        }
        if !big {
            w = w * 10 + d;
            if w > 1_000_000_000 {
                big = true;
            }
        }
        i += 1;
    }
    proof {
        if i < n {
            assert(b.skip(i - start)[0] == t@[i as int]);
        }
        assert(b.take(i - start) =~= t@.subrange(start as int, i as int));
    }
    if big {
        (i, None)
    } else {
        (i, Some(w))
    }
}

/// The fractional digits `t[fs..]`: their first six as millionths and the rounding digit, when
/// all of them are digits.
fn frac_run(t: &Vec<char>, fs: usize) -> (r: Option<(u64, u64)>)
    requires
        fs <= t.len(),
    ensures
        r is Some <==> all_digits(t@.skip(fs as int)),
        r matches Some((fr, up)) ==> fr == frac_micros(t@.skip(fs as int)) && up == round_up(
            t@.skip(fs as int),
        ),
{
    let n = t.len();
    let ghost rest = t@.skip(fs as int);
    assert(rest.take(0) =~= Seq::<char>::empty());
    assert(pow10(0) == 1);
    let mut i = fs;
    let mut fr: u64 = 0;
    let mut up: u64 = 0;
    while i < n
        invariant
            fs <= i <= n == t.len(),
            rest == t@.skip(fs as int),
            all_digits(rest.take(i - fs)),
            (i - fs) <= 6 ==> fr == digits_val(rest.take(i - fs)),
            (i - fs) > 6 ==> fr == digits_val(rest.take(6)),
            fr < 1_000_000,
            up == round_up(rest.take(i - fs)),
        decreases n - i,
    {
        if !is_digit_char(t[i]) {
            proof {
                assert(rest[i - fs] == t@[i as int]);
            }
            return None;
        }
        let d = (t[i] as u32 - 48) as u64;
        proof {
            assert(rest[i - fs] == t@[i as int]);
            lemma_digits_step(rest, i - fs);
            assert(all_digits(rest.take(i - fs + 1))) by {
                assert forall|j: int| 0 <= j < i - fs + 1 implies is_digit(
                    #[trigger] rest.take(i - fs + 1)[j],
                ) by {
                    if j < i - fs {
                        assert(rest.take(i - fs + 1)[j] == rest.take(i - fs)[j]);
                    }
                }
            }
            if i - fs < 6 {
                lemma_digits_bound(rest.take(i - fs + 1));
                lemma_pow10_mono((i - fs + 1) as nat, 6);
                lemma_pow10_six();
            } else {
                assert(rest.take(i - fs + 1).take(6) =~= rest.take(6));
                assert(rest.take(i - fs + 1)[6] == rest[6]);
                if i - fs > 6 {
                    assert(rest.take(i - fs)[6] == rest[6]);
                }
            }
        }
        if i - fs < 6 {
            fr = fr * 10 + d;
        } else if i - fs == 6 {
            up = if d >= 5 {
                1
            } else {
                0
            };
        }
        i += 1;
    }
    let nf = i - fs;
    assert(rest.take(nf as int) =~= rest);
    let mut k = nf;
    proof {
        if nf >= 6 {
            assert(rest.take(6) =~= rest.take(nf as int).take(6));
        } else {
            lemma_digits_bound(rest);
        }
    }
    while k < 6
        invariant
            nf <= k,
            nf < 6 ==> k <= 6,
            rest.len() == nf,
            nf < 6 ==> fr == digits_val(rest) * pow10((k - nf) as nat),
            nf >= 6 ==> fr == frac_micros(rest),
            nf < 6 ==> fr < pow10(k as nat),
        decreases 6 - k,
    {
        proof {
            lemma_pow10_mono((k + 1) as nat, 6);
            lemma_pow10_six();
            assert(fr * 10 == digits_val(rest) * pow10((k + 1 - nf) as nat)) by (nonlinear_arith)
                requires
                    fr == digits_val(rest) * pow10((k - nf) as nat),
                    pow10((k + 1 - nf) as nat) == 10 * pow10((k - nf) as nat),
            ;
        }
        fr = fr * 10;
        k += 1;
    }
    Some((fr, up))
}

/// Reads a decimal literal (see `decimal_micros`) as millionths.
pub fn parse_decimal(t: &Vec<char>) -> (r: Option<i64>)
    ensures
        opt_int(r) == decimal_micros(t@),
{
    let n = t.len();
    let mut start: usize = 0;
    let mut neg = false;
    if n > 0 && (t[0] == '+' || t[0] == '-') {
        neg = t[0] == '-';
        start = 1;
    }
    let ghost b = t@.skip(start as int);
    let (end, whole) = whole_run(t, start);
    let nw = end - start;
    proof {
        lemma_lead_all_digits(b);
        assert(b.take(nw as int) =~= t@.subrange(start as int, end as int));
        assert(b.skip(nw as int) =~= t@.skip(end as int));
    }
    let w = match whole {
        None => {
            proof {
                if let Some((ww, f)) = decimal_split(t@) {
                    if b.skip(nw as int).len() == 0 {
                        assert(ww =~= b.take(nw as int));
                    } else {
                        assert(ww =~= b.take(nw as int));
                        assert(all_digits(f));
                    }
                    lemma_frac_nonneg(f);
                }
            }
            return None;
        },
        Some(w) => w,
    };
    let mut fr: u64 = 0;
    let mut up: u64 = 0;
    let ghost f: Seq<char> = Seq::empty();
    if end < n {
        if t[end] != '.' {
            return None;
        }
        proof {
            assert(b.skip(nw as int).drop_first() =~= t@.skip(end + 1));
        }
        match frac_run(t, end + 1) {
            None => {
                return None;
            },
            Some((a, c)) => {
                fr = a;
                up = c;
                proof {
                    f = t@.skip(end + 1);
                }
            },
        }
        if nw == 0 && end + 1 == n {
            return None;
        }
    } else {
        if nw == 0 {
            return None;
        }
        proof {
            assert(b.take(nw as int) =~= b);
            assert(pow10(6) * 0 == 0);
        }
    }
    proof {
        lemma_lead_all_digits(b);
        lemma_frac_nonneg(f);
    }
    let m: u64 = w * 1_000_000 + fr + up;
    if m > 1_000_000_000_000_000 {
        return None;
    }
    if neg {
        Some(-(m as i64))
    } else {
        Some(m as i64)
    }
}

pub proof fn lemma_pow10_mono(a: nat, b: nat)
    requires
        a <= b,
    ensures
        pow10(a) <= pow10(b),
    decreases b,
{
    if a < b {
        lemma_pow10_mono(a, (b - 1) as nat);
        lemma_pow10_pos((b - 1) as nat);
    }
}

} // verus!
