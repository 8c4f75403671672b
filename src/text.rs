//! Character-level helpers over `str` and `String`, stated over `Seq<char>`.
use vstd::prelude::*;

verus! {

/// Characters with Unicode's White_Space property: what `str::trim` removes.
pub open spec fn is_white(c: char) -> bool {
    let u = c as u32;
    (0x9 <= u && u <= 0xD) || u == 0x20 || u == 0x85 || u == 0xA0 || u == 0x1680 || (0x2000 <= u
        && u <= 0x200A) || u == 0x2028 || u == 0x2029 || u == 0x202F || u == 0x205F || u == 0x3000
}

/// `s` without its leading white space.
pub open spec fn trim_start(s: Seq<char>) -> Seq<char>
    decreases s.len(),
{
    if s.len() > 0 && is_white(s[0]) {
        trim_start(s.drop_first())
    } else {
        s
    }
}

/// `s` without its trailing white space.
pub open spec fn trim_end(s: Seq<char>) -> Seq<char>
    decreases s.len(),
{
    if s.len() > 0 && is_white(s.last()) {
        trim_end(s.drop_last())
    } else {
        s
    }
}

/// `s` without white space at either end.
pub open spec fn trim(s: Seq<char>) -> Seq<char> {
    trim_end(trim_start(s))
}

/// `k` occurs in `s` starting at position `i`.
pub open spec fn occurs_at(s: Seq<char>, k: Seq<char>, i: int) -> bool {
    0 <= i && i + k.len() <= s.len() && s.subrange(i, i + k.len()) == k
}

/// `k` occurs somewhere in `s`.
pub open spec fn contains(s: Seq<char>, k: Seq<char>) -> bool {
    exists|i: int| occurs_at(s, k, i)
}

/// ASCII letters folded to lower case; every other character kept.
pub open spec fn ascii_lower(c: char) -> char {
    if 'A' <= c && c <= 'Z' {
        ((c as u8) + 32) as char
    } else {
        c
    }
}

pub open spec fn lower_seq(s: Seq<char>) -> Seq<char> {
    s.map_values(|c: char| ascii_lower(c))
}

/// Separators of labelled values: a colon, ASCII or full width; with `wide`, also `.` and space.
pub open spec fn is_sep(c: char, wide: bool) -> bool {
    c == ':' || c == '：' || (wide && (c == '.' || c == ' '))
}

/// The pieces of `s` between separators, as `str::split` gives them (always at least one).
pub open spec fn split_fields(s: Seq<char>, wide: bool) -> Seq<Seq<char>>
    decreases s.len(),
{
    if s.len() == 0 {
        seq![Seq::empty()]
    } else {
        let prev = split_fields(s.drop_last(), wide);
        if is_sep(s.last(), wide) {
            prev.push(Seq::empty())
        } else {
            prev.update(prev.len() - 1, prev.last().push(s.last()))
        }
    }
}

pub open spec fn views(v: Seq<Vec<char>>) -> Seq<Seq<char>> {
    v.map_values(|f: Vec<char>| f@)
}

pub open spec fn digit_char(d: int) -> char {
    seq!['0', '1', '2', '3', '4', '5', '6', '7', '8', '9'][d]
}

/// The decimal digits of `n`, most significant first, without leading zeros.
pub open spec fn nat_digits(n: nat) -> Seq<char>
    decreases n,
{
    if n < 10 {
        seq![digit_char(n as int)]
    } else {
        nat_digits(n / 10).push(digit_char((n % 10) as int))
    }
}

/// How `i64`'s `Display` writes `i`.
pub open spec fn int_text(i: int) -> Seq<char> {
    if i < 0 {
        seq!['-'] + nat_digits((-i) as nat)
    } else {
        nat_digits(i as nat)
    }
}

/// `s` padded on the left with `'0'` up to `width` characters.
pub open spec fn zero_pad(s: Seq<char>, width: nat) -> Seq<char> {
    if s.len() < width {
        Seq::new((width - s.len()) as nat, |i: int| '0') + s
    } else {
        s
    }
}

/// The characters of `s`, in order.
pub fn chars_of(s: &str) -> (r: Vec<char>)
    ensures
        r@ == s@,
{
    let mut v: Vec<char> = Vec::new();
    for c in it: s.chars()
        invariant
            it.seq() == s@,
            v@ == it.seq().take(it.index() as int),
    {
        v.push(c);
    }
    v
}

/// Relies on `String: FromIterator<char>`: the string of exactly these characters.
#[verifier::external_body]
pub(crate) fn string_of(v: &Vec<char>) -> (r: String)
    ensures
        r@ == v@,
{
    v.iter().collect()
}

pub fn is_white_char(c: char) -> (r: bool)
    ensures
        r == is_white(c),
{
    let u = c as u32;
    (0x9 <= u && u <= 0xD) || u == 0x20 || u == 0x85 || u == 0xA0 || u == 0x1680 || (0x2000 <= u
        && u <= 0x200A) || u == 0x2028 || u == 0x2029 || u == 0x202F || u == 0x205F || u == 0x3000
}

/// `v[from..to]` as a new vector.
pub fn slice_chars(v: &Vec<char>, from: usize, to: usize) -> (r: Vec<char>)
    requires
        from <= to <= v.len(),
    ensures
        r@ == v@.subrange(from as int, to as int),
{
    let mut r: Vec<char> = Vec::new();
    let mut i = from;
    while i < to
        invariant
            from <= i <= to <= v.len(),
            r@ == v@.subrange(from as int, i as int),
        decreases to - i,
    {
        r.push(v[i]);
        i += 1;
        assert(r@ =~= v@.subrange(from as int, i as int));
    }
    r
}

pub fn trim_chars(v: &Vec<char>) -> (r: Vec<char>)
    ensures
        r@ == trim(v@),
{
    let n = v.len();
    let mut s: usize = 0;
    assert(v@.skip(0) =~= v@);
    while s < n && is_white_char(v[s])
        invariant
            s <= n == v.len(),
            trim_start(v@) == trim_start(v@.skip(s as int)),
        decreases n - s,
    {
        assert(v@.skip(s as int).drop_first() =~= v@.skip(s + 1));
        s += 1;
    }
    assert(trim_start(v@) == v@.skip(s as int));
    let ghost x = v@.skip(s as int);
    let mut e: usize = n;
    assert(x.take(e - s) =~= x);
    while e > s && is_white_char(v[e - 1])
        invariant
            s <= e <= n == v.len(),
            x == v@.skip(s as int),
            trim_end(x) == trim_end(x.take(e - s)),
        decreases e,
    {
        assert(x.take(e - s).drop_last() =~= x.take(e - s - 1));
        e -= 1;
    }
    assert(x.take(e - s) =~= v@.subrange(s as int, e as int));
    slice_chars(v, s, e)
}

/// Whether `k` occurs in `s`.
pub fn has_infix(s: &Vec<char>, k: &Vec<char>) -> (r: bool)
    ensures
        r == contains(s@, k@),
{
    let n = s.len();
    let m = k.len();
    if m > n {
        assert forall|i: int| !occurs_at(s@, k@, i) by {}
        return false;
    }
    if m == 0 {
        assert(s@.subrange(0, 0) =~= k@);
        assert(occurs_at(s@, k@, 0));
        return true;
    }
    let mut i: usize = 0;
    while i <= n - m
        invariant
            1 <= m <= n,
            n == s.len(),
            m == k.len(),
            forall|p: int| 0 <= p < i ==> !occurs_at(s@, k@, p),
        decreases n - m + 1 - i,
    {
        let mut j: usize = 0;
        let mut same = true;
        assert(s@.subrange(i as int, i as int) =~= k@.take(0));
        while j < m
            invariant
                i + m <= n,
                n == s.len(),
                m == k.len(),
                j <= m,
                same == (s@.subrange(i as int, i + j) == k@.take(j as int)),
            decreases m - j,
        {
            if s[i + j] != k[j] {
                same = false;
                assert(s@.subrange(i as int, i + j + 1)[j as int] != k@.take(j + 1)[j as int]);
            } else if same {
                assert(s@.subrange(i as int, i + j + 1) =~= k@.take(j + 1));
            } else {
                assert(s@.subrange(i as int, i + j + 1).take(j as int) =~= s@.subrange(
                    i as int,
                    i + j,
                ));
                assert(k@.take(j + 1).take(j as int) =~= k@.take(j as int));
            }
            j += 1;
        }
        assert(k@.take(m as int) =~= k@);
        if same {
            assert(occurs_at(s@, k@, i as int));
            return true;
        }
        i += 1;
    }
    assert forall|p: int| !occurs_at(s@, k@, p) by {}
    false
}

/// Whether the literal `k` occurs in `s`.
pub fn has_word(s: &Vec<char>, k: &str) -> (r: bool)
    ensures
        r == contains(s@, k@),
{
    has_infix(s, &chars_of(k))
}

pub fn lower_char(c: char) -> (r: char)
    ensures
        r == ascii_lower(c),
{
    if 'A' <= c && c <= 'Z' {
        ((c as u8) + 32) as char
    } else {
        c
    }
}

pub fn lower_chars(v: &Vec<char>) -> (r: Vec<char>)
    ensures
        r@ == lower_seq(v@),
{
    let mut r: Vec<char> = Vec::new();
    let mut i: usize = 0;
    while i < v.len()
        invariant
            i <= v.len(),
            r@ == lower_seq(v@.take(i as int)),
        decreases v.len() - i,
    {
        r.push(lower_char(v[i]));
        i += 1;
        assert(r@ =~= lower_seq(v@.take(i as int)));
    }
    assert(v@.take(v.len() as int) =~= v@);
    r
}

/// Whether two character sequences are equal.
pub fn same_chars(a: &Vec<char>, b: &Vec<char>) -> (r: bool)
    ensures
        r == (a@ == b@),
{
    if a.len() != b.len() {
        return false;
    }
    let mut i: usize = 0;
    while i < a.len()
        invariant
            a.len() == b.len(),
            i <= a.len(),
            a@.take(i as int) == b@.take(i as int),
        decreases a.len() - i,
    {
        if a[i] != b[i] {
            assert(a@[i as int] != b@[i as int]);
            return false;
        }
        i += 1;
        assert(a@.take(i as int) =~= a@.take(i - 1).push(a@[i - 1]));
        assert(b@.take(i as int) =~= b@.take(i - 1).push(b@[i - 1]));
    }
    assert(a@ =~= a@.take(i as int));
    assert(b@ =~= b@.take(i as int));
    true
}

/// The pieces of `v` between separators (see `split_fields`).
pub fn split_chars(v: &Vec<char>, wide: bool) -> (r: Vec<Vec<char>>)
    ensures
        views(r@) == split_fields(v@, wide),
{
    let mut fields: Vec<Vec<char>> = Vec::new();
    let mut cur: Vec<char> = Vec::new();
    let mut i: usize = 0;
    while i < v.len()
        invariant
            i <= v.len(),
            split_fields(v@.take(i as int), wide) == views(fields@).push(cur@),
        decreases v.len() - i,
    {
        let c = v[i];
        let ghost prev = views(fields@).push(cur@);
        assert(v@.take(i + 1).drop_last() =~= v@.take(i as int));
        if c == ':' || c == '：' || (wide && (c == '.' || c == ' ')) {
            fields.push(cur);
            cur = Vec::new();
            assert(views(fields@).push(cur@) =~= prev.push(Seq::empty()));
        } else {
            cur.push(c);
            assert(views(fields@).push(cur@) =~= prev.update(
                prev.len() - 1,
                prev.last().push(c),
            ));
        }
        i += 1;
    }
    assert(v@.take(v.len() as int) =~= v@);
    fields.push(cur);
    assert(views(fields@) =~= split_fields(v@, wide));
    fields
}

pub fn digit_of(d: u64) -> (c: char)
    requires
        d < 10,
    ensures
        c == digit_char(d as int),
{
    if d == 0 {
        '0'
    } else if d == 1 {
        '1'
    } else if d == 2 {
        '2'
    } else if d == 3 {
        '3'
    } else if d == 4 {
        '4'
    } else if d == 5 {
        '5'
    } else if d == 6 {
        '6'
    } else if d == 7 {
        '7'
    } else if d == 8 {
        '8'
    } else {
        '9'
    }
}

/// The decimal digits of `n`.
pub fn digits_of(n: u64) -> (r: Vec<char>)
    ensures
        r@ == nat_digits(n as nat),
{
    let mut rest: Vec<char> = Vec::new();
    let mut m = n;
    while m >= 10
        invariant
            nat_digits(n as nat) == nat_digits(m as nat) + rest@,
        decreases m,
    {
        let d = m % 10;
        let ghost before = rest@;
        rest.insert(0, digit_of(d));
        assert(rest@ =~= seq![digit_char(d as int)] + before);
        assert(nat_digits(m as nat) == nat_digits((m / 10) as nat).push(digit_char(d as int)));
        assert(nat_digits(m as nat) + before =~= nat_digits((m / 10) as nat) + rest@);
        m = m / 10;
    }
    rest.insert(0, digit_of(m));
    assert(rest@ =~= nat_digits(m as nat) + rest@.drop_first());
    rest
}

/// How `i64`'s `Display` writes `i`.
pub fn int_chars(i: i64) -> (r: Vec<char>)
    ensures
        r@ == int_text(i as int),
{
    if i < 0 {
        let mag: u64 = if i == i64::MIN {
            9223372036854775808u64
        } else {
            (-i) as u64
        };
        let d = digits_of(mag);
        let mut r: Vec<char> = Vec::new();
        r.push('-');
        let mut k: usize = 0;
        while k < d.len()
            invariant
                k <= d.len(),
                r@ == seq!['-'] + d@.take(k as int),
            decreases d.len() - k,
        {
            r.push(d[k]);
            k += 1;
            assert(r@ =~= seq!['-'] + d@.take(k as int));
        }
        assert(d@.take(d.len() as int) =~= d@);
        r
    } else {
        digits_of(i as u64)
    }
}

/// `v` padded on the left with `'0'` up to `width` characters.
pub fn zero_padded(v: Vec<char>, width: usize) -> (r: Vec<char>)
    ensures
        r@ == zero_pad(v@, width as nat),
{
    if v.len() >= width {
        return v;
    }
    let mut r: Vec<char> = Vec::new();
    let fill = width - v.len();
    while r.len() < fill
        invariant
            r.len() <= fill,
            forall|j: int| 0 <= j < r.len() ==> r@[j] == '0',
        decreases fill - r.len(),
    {
        r.push('0');
    }
    let mut k: usize = 0;
    while k < v.len()
        invariant
            r.len() == fill + k,
            k <= v.len(),
            forall|j: int| 0 <= j < fill ==> r@[j] == '0',
            r@.skip(fill as int) == v@.take(k as int),
        decreases v.len() - k,
    {
        r.push(v[k]);
        k += 1;
        assert(r@.skip(fill as int) =~= v@.take(k as int));
    }
    assert(r@.take(fill as int) =~= Seq::new(fill as nat, |i: int| '0'));
    assert(r@ =~= r@.take(fill as int) + r@.skip(fill as int));
    assert(v@.take(v.len() as int) =~= v@);
    assert(r@ =~= zero_pad(v@, width as nat));
    r
}

/// `a` sorts before `b` character by character, as `String`'s `Ord` compares them.
pub open spec fn seq_lt(a: Seq<char>, b: Seq<char>) -> bool
    decreases a.len(),
{
    if a.len() == 0 {
        b.len() > 0
    } else if b.len() == 0 {
        false
    } else if a[0] != b[0] {
        a[0] < b[0]
    } else {
        seq_lt(a.drop_first(), b.drop_first())
    }
}

pub proof fn lemma_lt_transitive(a: Seq<char>, b: Seq<char>, c: Seq<char>)
    requires
        seq_lt(a, b),
        seq_lt(b, c),
    ensures
        seq_lt(a, c),
    decreases a.len(),
{
    if a.len() > 0 && b.len() > 0 && c.len() > 0 {
        if a[0] == b[0] && b[0] == c[0] {
            lemma_lt_transitive(a.drop_first(), b.drop_first(), c.drop_first());
        }
    }
}

pub proof fn lemma_lt_total(a: Seq<char>, b: Seq<char>)
    requires
        a != b,
    ensures
        seq_lt(a, b) || seq_lt(b, a),
    decreases a.len(),
{
    if a.len() > 0 && b.len() > 0 && a[0] == b[0] {
        if a.drop_first() == b.drop_first() {
            assert(a =~= seq![a[0]] + a.drop_first());
            assert(b =~= seq![b[0]] + b.drop_first());
        } else {
            lemma_lt_total(a.drop_first(), b.drop_first());
        }
    } else if a.len() == 0 && b.len() == 0 {
        assert(a =~= b);
    }
}

/// Whether `a` sorts before `b` (see `seq_lt`).
pub fn less_chars(a: &Vec<char>, b: &Vec<char>) -> (r: bool)
    ensures
        r == seq_lt(a@, b@),
{
    let mut i: usize = 0;
    assert(a@.skip(0) =~= a@);
    assert(b@.skip(0) =~= b@);
    while i < a.len() && i < b.len() && a[i] == b[i]
        invariant
            i <= a.len(),
            i <= b.len(),
            seq_lt(a@, b@) == seq_lt(a@.skip(i as int), b@.skip(i as int)),
        decreases a.len() - i,
    {
        assert(a@.skip(i as int).drop_first() =~= a@.skip(i + 1));
        assert(b@.skip(i as int).drop_first() =~= b@.skip(i + 1));
        i += 1;
    }
    if i == a.len() {
        i < b.len()
    } else if i == b.len() {
        false
    } else {
        assert(a@.skip(i as int)[0] == a@[i as int]);
        assert(b@.skip(i as int)[0] == b@[i as int]);
        a[i] < b[i]
    }
}

/// The pieces of `s` between occurrences of `sep` (always at least one).
pub open spec fn split_on(s: Seq<char>, sep: char) -> Seq<Seq<char>>
    decreases s.len(),
{
    if s.len() == 0 {
        seq![Seq::empty()]
    } else {
        let prev = split_on(s.drop_last(), sep);
        if s.last() == sep {
            prev.push(Seq::empty())
        } else {
            prev.update(prev.len() - 1, prev.last().push(s.last()))
        }
    }
}

/// The pieces of `v` between occurrences of `sep`.
pub fn split_at_char(v: &Vec<char>, sep: char) -> (r: Vec<Vec<char>>)
    ensures
        views(r@) == split_on(v@, sep),
{
    let mut fields: Vec<Vec<char>> = Vec::new();
    let mut cur: Vec<char> = Vec::new();
    let mut i: usize = 0;
    while i < v.len()
        invariant
            i <= v.len(),
            split_on(v@.take(i as int), sep) == views(fields@).push(cur@),
        decreases v.len() - i,
    {
        let c = v[i];
        let ghost prev = views(fields@).push(cur@);
        assert(v@.take(i + 1).drop_last() =~= v@.take(i as int));
        if c == sep {
            fields.push(cur);
            cur = Vec::new();
            assert(views(fields@).push(cur@) =~= prev.push(Seq::empty()));
        } else {
            cur.push(c);
            assert(views(fields@).push(cur@) =~= prev.update(prev.len() - 1, prev.last().push(c)));
        }
        i += 1;
    }
    assert(v@.take(v.len() as int) =~= v@);
    fields.push(cur);
    assert(views(fields@) =~= split_on(v@, sep));
    fields
}

} // verus!
