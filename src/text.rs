//! Character-level helpers shared by the log and date parsers.
use vstd::prelude::*;
use vstd::string::*;

verus! {

/// An ASCII decimal digit.
pub open spec fn is_digit(c: char) -> bool {
    '0' <= c && c <= '9'
}

/// The value of a single ASCII digit.
pub open spec fn digit_value(c: char) -> int {
    (c as int) - ('0' as int)
}

/// Every character of `s` is an ASCII digit.
pub open spec fn all_digits(s: Seq<char>) -> bool {
    forall|i: int| 0 <= i < s.len() ==> is_digit(#[trigger] s[i])
}

/// The decimal value of a string of digits.
pub open spec fn digits_value(s: Seq<char>) -> int
    decreases s.len(),
{
    if s.len() == 0 {
        0
    } else {
        digits_value(s.drop_last()) * 10 + digit_value(s.last())
    }
}

/// The value of a decimal integer: an optional `+` or `-`, then one or more digits.
pub open spec fn int_of(s: Seq<char>) -> Option<int> {
    if s.len() > 0 && (s[0] == '+' || s[0] == '-') {
        let d = s.drop_first();
        if d.len() > 0 && all_digits(d) {
            Some(if s[0] == '-' { -digits_value(d) } else { digits_value(d) })
        } else {
            None
        }
    } else if s.len() > 0 && all_digits(s) {
        Some(digits_value(s))
    } else {
        None
    }
}

/// `int_of`, kept to the values that an `i64` holds.
pub open spec fn i64_of(s: Seq<char>) -> Option<i64> {
    match int_of(s) {
        Some(v) => if i64::MIN <= v <= i64::MAX {
            Some(v as i64)
        } else {
            None
        },
        None => None,
    }
}

/// Relies on `i64::from_str`: it accepts exactly an optional sign followed by
/// one or more ASCII digits whose value fits in an `i64`.
#[verifier::external_body]
pub(crate) fn parse_i64(s: &str) -> (r: Option<i64>)
    ensures
        r == i64_of(s@),
{
    s.parse::<i64>().ok()
}

/// Relies on `str::chars`: the characters of `s`, in order.
#[verifier::external_body]
pub(crate) fn chars_of(s: &str) -> (r: Vec<char>)
    ensures
        r@ == s@,
{
    s.chars().collect()
}

/// Unicode `White_Space`, the set that `char::is_whitespace` and `str::trim` use.
pub open spec fn is_white(c: char) -> bool {
    let u = c as u32;
    (9 <= u && u <= 13) || u == 32 || u == 0x85 || u == 0xA0 || u == 0x1680 || (0x2000 <= u
        && u <= 0x200A) || u == 0x2028 || u == 0x2029 || u == 0x202F || u == 0x205F || u
        == 0x3000
}

/// ASCII whitespace, as `u8::is_ascii_whitespace` defines it.
pub open spec fn is_ascii_white(c: char) -> bool {
    c == ' ' || c == '\t' || c == '\n' || c == '\x0C' || c == '\r'
}

pub fn white(c: char) -> (r: bool)
    ensures
        r == is_white(c),
{
    let u = c as u32;
    (9 <= u && u <= 13) || u == 32 || u == 0x85 || u == 0xA0 || u == 0x1680 || (0x2000 <= u
        && u <= 0x200A) || u == 0x2028 || u == 0x2029 || u == 0x202F || u == 0x205F || u
        == 0x3000
}

pub fn ascii_white(c: char) -> (r: bool)
    ensures
        r == is_ascii_white(c),
{
    c == ' ' || c == '\t' || c == '\n' || c == '\x0C' || c == '\r'
}

pub fn digit(c: char) -> (r: bool)
    ensures
        r == is_digit(c),
{
    '0' <= c && c <= '9'
}

/// `s` without its leading whitespace.
pub open spec fn trim_start(s: Seq<char>) -> Seq<char>
    decreases s.len(),
{
    if s.len() > 0 && is_white(s[0]) {
        trim_start(s.drop_first())
    } else {
        s
    }
}

/// `s` without its trailing whitespace.
pub open spec fn trim_end(s: Seq<char>) -> Seq<char>
    decreases s.len(),
{
    if s.len() > 0 && is_white(s.last()) {
        trim_end(s.drop_last())
    } else {
        s
    }
}

/// `s` without leading or trailing whitespace.
pub open spec fn trim(s: Seq<char>) -> Seq<char> {
    trim_end(trim_start(s))
}

/// The index of the first character of `s[from..]` that is not whitespace.
pub fn skip_white(s: &Vec<char>, from: usize) -> (r: usize)
    requires
        from <= s@.len(),
    ensures
        from <= r <= s@.len(),
        s@.skip(r as int) == trim_start(s@.skip(from as int)),
{
    let mut i = from;
    while i < s.len() && white(s[i])
        invariant
            from <= i <= s@.len(),
            trim_start(s@.skip(i as int)) == trim_start(s@.skip(from as int)),
        decreases s@.len() - i,
    {
        assert(s@.skip(i as int).drop_first() =~= s@.skip(i + 1));
        i += 1;
    }
    if i < s.len() {
        assert(!is_white(s@.skip(i as int)[0]));
    }
    i
}

/// The end of `s[from..to]` once its trailing whitespace is dropped.
pub fn trim_end_index(s: &Vec<char>, from: usize, to: usize) -> (r: usize)
    requires
        from <= to <= s@.len(),
    ensures
        from <= r <= to,
        s@.subrange(from as int, r as int) == trim_end(s@.subrange(from as int, to as int)),
{
    let mut j = to;
    while j > from && white(s[j - 1])
        invariant
            from <= j <= to <= s@.len(),
            trim_end(s@.subrange(from as int, j as int)) == trim_end(
                s@.subrange(from as int, to as int),
            ),
        decreases j,
    {
        let ghost t = s@.subrange(from as int, j as int);
        assert(t.drop_last() =~= s@.subrange(from as int, j - 1));
        j -= 1;
    }
    j
}

/// `s` without leading or trailing whitespace.
pub fn trim_str(s: &str) -> (r: &str)
    ensures
        r@ == trim(s@),
{
    let cs = chars_of(s);
    let a = skip_white(&cs, 0);
    let b = trim_end_index(&cs, a, cs.len());
    assert(cs@.skip(0) =~= cs@);
    assert(cs@.skip(a as int) =~= cs@.subrange(a as int, cs@.len() as int));
    s.substring_char(a, b)
}

/// The spans `(start, end)` of the runs of non-whitespace characters of `s`,
/// in order; whitespace is ASCII whitespace.
pub open spec fn spans(s: Seq<char>) -> Seq<(int, int)>
    decreases s.len(),
{
    if s.len() == 0 {
        Seq::empty()
    } else {
        let p = spans(s.drop_last());
        let n = s.len() - 1;
        if is_ascii_white(s[n]) {
            p
        } else if n > 0 && !is_ascii_white(s[n - 1]) {
            p.update(p.len() - 1, (p.last().0, n + 1))
        } else {
            p.push((n, n + 1))
        }
    }
}

/// The words of `s` separated by ASCII whitespace, as `str::split_ascii_whitespace` gives them.
pub open spec fn tokens(s: Seq<char>) -> Seq<Seq<char>> {
    spans(s).map_values(|p: (int, int)| s.subrange(p.0, p.1))
}

/// The spans of `spans(s)`, as machine integers.
pub fn token_spans(s: &Vec<char>) -> (r: Vec<(usize, usize)>)
    ensures
        r@.len() == spans(s@).len(),
        forall|k: int|
            0 <= k < r@.len() ==> (#[trigger] r@[k]).0 == spans(s@)[k].0 && r@[k].1 == spans(
                s@,
            )[k].1 && r@[k].0 < r@[k].1 <= s@.len(),
{
    let mut r: Vec<(usize, usize)> = Vec::new();
    let mut i: usize = 0;
    while i < s.len()
        invariant
            i <= s@.len(),
            r@.len() == spans(s@.take(i as int)).len(),
            forall|k: int|
                0 <= k < r@.len() ==> (#[trigger] r@[k]).0 == spans(s@.take(i as int))[k].0
                    && r@[k].1 == spans(s@.take(i as int))[k].1 && r@[k].0 < r@[k].1 <= i,
            (i > 0 && !is_ascii_white(s@[i - 1])) ==> r@.len() > 0 && r@.last().1 == i,
        decreases s@.len() - i,
    {
        assert(s@.take(i + 1).drop_last() =~= s@.take(i as int));
        if ascii_white(s[i]) {
        } else if i > 0 && !ascii_white(s[i - 1]) {
            let last = r.len() - 1;
            let st = r[last].0;
            r.set(last, (st, i + 1));
        } else {
            r.push((i, i + 1));
        }
        i += 1;
    }
    assert(s@.take(s@.len() as int) =~= s@);
    r
}

/// `p` begins `s`.
pub open spec fn has_prefix(s: Seq<char>, p: Seq<char>) -> bool {
    p.len() <= s.len() && s.take(p.len() as int) == p
}

/// Whether `p` begins `s`.
pub fn starts_with(s: &Vec<char>, p: &str) -> (r: bool)
    ensures
        r == has_prefix(s@, p@),
{
    let n = p.unicode_len();
    if n > s.len() {
        return false;
    }
    let mut i: usize = 0;
    while i < n
        invariant
            n == p@.len(),
            n <= s@.len(),
            i <= n,
            forall|j: int| 0 <= j < i ==> s@[j] == p@[j],
        decreases n - i,
    {
        if s[i] != p.get_char(i) {
            assert(s@.take(n as int)[i as int] != p@[i as int]);
            return false;
        }
        i += 1;
    }
    assert(s@.take(n as int) =~= p@);
    true
}

/// Whether `s` and `p` hold the same characters.
pub fn same_chars(s: &Vec<char>, p: &str) -> (r: bool)
    ensures
        r == (s@ == p@),
{
    if s.len() != p.unicode_len() {
        return false;
    }
    let b = starts_with(s, p);
    assert(s@.take(s@.len() as int) =~= s@);
    b
}

/// Whether `s` ends with `e`.
pub fn ends_with(s: &Vec<char>, e: &Vec<char>) -> (r: bool)
    ensures
        r == (e@.len() <= s@.len() && s@.skip(s@.len() - e@.len()) == e@),
{
    if e.len() > s.len() {
        return false;
    }
    let sl = s.len();
    let off = sl - e.len();
    let mut i: usize = 0;
    while i < e.len()
        invariant
            sl == s@.len(),
            off + e@.len() == s@.len(),
            i <= e@.len(),
            forall|j: int| 0 <= j < i ==> s@[off + j] == e@[j],
        decreases e@.len() - i,
    {
        if s[off + i] != e[i] {
            assert(s@.skip(off as int)[i as int] != e@[i as int]);
            return false;
        }
        i += 1;
    }
    assert(s@.skip(off as int) =~= e@);
    true
}

/// Whether two strings hold the same characters.
pub fn same_chars_str(a: &str, b: &str) -> (r: bool)
    ensures
        r == (a@ == b@),
{
    let cs = chars_of(a);
    same_chars(&cs, b)
}

/// Relies on `String::push`: appends `c`.
#[verifier::external_body]
pub(crate) fn push_char(s: &mut String, c: char)
    ensures
        final(s)@ == old(s)@.push(c),
{
    s.push(c);
}

/// The ASCII digit of `d`, for `0 <= d < 10`.
pub open spec fn digit_char(d: int) -> char {
    seq!['0', '1', '2', '3', '4', '5', '6', '7', '8', '9'][d]
}

pub fn digit_of(d: u64) -> (r: char)
    requires
        d < 10,
    ensures
        r == digit_char(d as int),
{
    if d == 0 {
        '0'
    } else if d == 1 {
        '1'
    } else if d == 2 {
        '2'
    } else if d == 3 {
        '3'
    } else if d == 4 {
        '4'
    } else if d == 5 {
        '5'
    } else if d == 6 {
        '6'
    } else if d == 7 {
        '7'
    } else if d == 8 {
        '8'
    } else {
        '9'
    }
}

/// The decimal digits of `n`, without leading zeros.
pub open spec fn decimal(n: nat) -> Seq<char>
    decreases n,
{
    if n < 10 {
        seq![digit_char(n as int)]
    } else {
        decimal(n / 10).push(digit_char((n % 10) as int))
    }
}

/// The decimal digits of `n`, with a leading zero below 10.
pub open spec fn pad2(n: nat) -> Seq<char> {
    if n < 10 {
        seq!['0'] + decimal(n)
    } else {
        decimal(n)
    }
}

/// Append the decimal digits of `n` to `s`.
pub fn push_decimal(s: &mut String, n: u64)
    ensures
        final(s)@ == old(s)@ + decimal(n as nat),
    decreases n,
{
    let ghost before = s@;
    if n >= 10 {
        push_decimal(s, n / 10);
    }
    push_char(s, digit_of(n % 10));
    if n >= 10 {
        assert(s@ =~= before + decimal(n as nat));
    } else {
        assert(s@ =~= before + decimal(n as nat));
    }
}

/// Append `n` to `s` with at least two digits.
pub fn push_pad2(s: &mut String, n: u64)
    ensures
        final(s)@ == old(s)@ + pad2(n as nat),
{
    let ghost before = s@;
    if n < 10 {
        push_char(s, '0');
    }
    push_decimal(s, n);
    assert(s@ =~= before + pad2(n as nat));
}

proof fn lemma_digit_char_value(d: int)
    requires
        0 <= d < 10,
    ensures
        is_digit(digit_char(d)),
        digit_value(digit_char(d)) == d,
{
    let ds = seq!['0', '1', '2', '3', '4', '5', '6', '7', '8', '9'];
    assert(digit_char(d) == ds[d]);
}

/// The decimal digits of `k` read back as `k`.
pub proof fn lemma_decimal_value(k: nat)
    ensures
        decimal(k).len() > 0,
        all_digits(decimal(k)),
        digits_value(decimal(k)) == k,
    decreases k,
{
    if k < 10 {
        lemma_digit_char_value(k as int);
        assert(decimal(k).drop_last() =~= Seq::<char>::empty());
        assert(digits_value(Seq::<char>::empty()) == 0);
        assert(decimal(k).last() == digit_char(k as int));
    } else {
        lemma_decimal_value(k / 10);
        lemma_digit_char_value((k % 10) as int);
        let s = decimal(k / 10);
        assert(decimal(k).drop_last() =~= s);
        assert(decimal(k).last() == digit_char((k % 10) as int));
        assert(digits_value(decimal(k)) == digits_value(s) * 10 + digit_value(decimal(k).last()));
        assert((k / 10) * 10 + k % 10 == k);
        assert forall|i: int| 0 <= i < decimal(k).len() implies is_digit(#[trigger] decimal(k)[i]) by {
            if i < s.len() {
                assert(decimal(k)[i] == s[i]);
            }
        }
    }
}

proof fn lemma_trim_start_white(w: Seq<char>, rest: Seq<char>)
    requires
        forall|i: int| 0 <= i < w.len() ==> is_white(#[trigger] w[i]),
        rest.len() > 0,
        !is_white(rest[0]),
    ensures
        trim_start(w + rest) == rest,
    decreases w.len(),
{
    if w.len() == 0 {
        assert(w + rest =~= rest);
    } else {
        assert((w + rest)[0] == w[0]);
        assert((w + rest).drop_first() =~= w.drop_first() + rest);
        lemma_trim_start_white(w.drop_first(), rest);
    }
}

proof fn lemma_trim_end_white(rest: Seq<char>, w: Seq<char>)
    requires
        forall|i: int| 0 <= i < w.len() ==> is_white(#[trigger] w[i]),
        rest.len() > 0,
        !is_white(rest.last()),
    ensures
        trim_end(rest + w) == rest,
    decreases w.len(),
{
    if w.len() == 0 {
        assert(rest + w =~= rest);
    } else {
        assert((rest + w).last() == w.last());
        assert((rest + w).drop_last() =~= rest + w.drop_last());
        lemma_trim_end_white(rest, w.drop_last());
    }
}

/// Whitespace around a text without whitespace at its ends is trimmed away.
pub proof fn lemma_trim_around(w1: Seq<char>, d: Seq<char>, w2: Seq<char>)
    requires
        forall|i: int| 0 <= i < w1.len() ==> is_white(#[trigger] w1[i]),
        forall|i: int| 0 <= i < w2.len() ==> is_white(#[trigger] w2[i]),
        d.len() > 0,
        !is_white(d[0]),
        !is_white(d.last()),
    ensures
        trim(w1 + d + w2) == d,
{
    assert(w1 + d + w2 =~= w1 + (d + w2));
    assert((d + w2)[0] == d[0]);
    lemma_trim_start_white(w1, d + w2);
    lemma_trim_end_white(d, w2);
}

/// A word: non-empty, without ASCII whitespace.
pub open spec fn is_word(w: Seq<char>) -> bool {
    w.len() > 0 && forall|i: int| 0 <= i < w.len() ==> !is_ascii_white(#[trigger] w[i])
}

/// The words `ws` joined by single spaces.
pub open spec fn joined(ws: Seq<Seq<char>>) -> Seq<char>
    decreases ws.len(),
{
    if ws.len() == 0 {
        Seq::empty()
    } else if ws.len() == 1 {
        ws[0]
    } else {
        joined(ws.drop_last()) + seq![' '] + ws.last()
    }
}

/// Appending the first `k` characters of a word after a space adds one span.
proof fn lemma_spans_word(s: Seq<char>, w: Seq<char>, k: int)
    requires
        is_word(w),
        1 <= k <= w.len(),
    ensures
        spans(s + seq![' '] + w.take(k)) == spans(s).push((s.len() + 1int, s.len() + 1 + k)),
    decreases k,
{
    let u = s + seq![' '] + w.take(k);
    let n = u.len() - 1;
    assert(u[n] == w[k - 1]);
    assert(!is_ascii_white(u[n]));
    if k == 1 {
        let v = s + seq![' '];
        assert(u.drop_last() =~= v);
        assert(v.drop_last() =~= s);
        assert(is_ascii_white(v.last()));
        assert(spans(v) == spans(s));
        assert(u[n - 1] == ' ');
        assert(spans(u) == spans(v).push((n, n + 1)));
    } else {
        let v = s + seq![' '] + w.take(k - 1);
        assert(u.drop_last() =~= v);
        lemma_spans_word(s, w, k - 1);
        assert(u[n - 1] == w[k - 2]);
        assert(!is_ascii_white(u[n - 1]));
        let p = spans(v);
        assert(spans(u) == p.update(p.len() - 1, (p.last().0, n + 1)));
        assert(spans(u) =~= spans(s).push((s.len() + 1int, s.len() + 1 + k)));
    }
}

/// A single word is one span.
proof fn lemma_spans_single(w: Seq<char>, k: int)
    requires
        is_word(w),
        1 <= k <= w.len(),
    ensures
        spans(w.take(k)) == seq![(0int, k)],
    decreases k,
{
    let u = w.take(k);
    assert(u[k - 1] == w[k - 1]);
    assert(!is_ascii_white(u[k - 1]));
    if k == 1 {
        assert(u.drop_last() =~= Seq::<char>::empty());
        assert(spans(u.drop_last()) == Seq::<(int, int)>::empty());
        assert(spans(u) =~= seq![(0int, k)]);
    } else {
        assert(u.drop_last() =~= w.take(k - 1));
        lemma_spans_single(w, k - 1);
        assert(u[k - 2] == w[k - 2]);
        assert(!is_ascii_white(u[k - 2]));
        let p = spans(u.drop_last());
        assert(spans(u) == p.update(p.len() - 1, (p.last().0, k)));
        assert(spans(u) =~= seq![(0int, k)]);
    }
}

proof fn lemma_prefix_subrange(s: Seq<char>, t: Seq<char>, a: int, b: int)
    requires
        0 <= a <= b <= s.len(),
    ensures
        (s + t).subrange(a, b) == s.subrange(a, b),
{
    assert((s + t).subrange(a, b) =~= s.subrange(a, b));
}

/// The spans of words joined by spaces are the words' places.
#[verifier::rlimit(100)]
proof fn lemma_spans_joined(ws: Seq<Seq<char>>)
    requires
        ws.len() > 0,
        forall|i: int| 0 <= i < ws.len() ==> is_word(#[trigger] ws[i]),
    ensures
        spans(joined(ws)).len() == ws.len(),
        forall|k: int|
            #![trigger spans(joined(ws))[k]]
            0 <= k < ws.len() ==> 0 <= spans(joined(ws))[k].0 <= spans(joined(ws))[k].1
                <= joined(ws).len() && joined(ws).subrange(
                spans(joined(ws))[k].0,
                spans(joined(ws))[k].1,
            ) == ws[k],
    decreases ws.len(),
{
    let l = joined(ws);
    if ws.len() == 1 {
        let w = ws[0];
        assert(is_word(w));
        lemma_spans_single(w, w.len() as int);
        assert(w.take(w.len() as int) =~= w);
        assert(l.subrange(0, w.len() as int) =~= w);
    } else {
        let p = ws.drop_last();
        let w = ws.last();
        assert(is_word(ws[ws.len() - 1]));
        assert forall|i: int| 0 <= i < p.len() implies is_word(#[trigger] p[i]) by {
            assert(p[i] == ws[i]);
        }
        lemma_spans_joined(p);
        let s = joined(p);
        let t = seq![' '] + w;
        assert(l =~= s + t);
        lemma_spans_word(s, w, w.len() as int);
        assert(w.take(w.len() as int) =~= w);
        let sp = spans(s);
        assert(spans(l) == sp.push((s.len() + 1int, l.len() as int)));
        assert forall|k: int| #![trigger spans(l)[k]] 0 <= k < ws.len() implies 0 <= spans(l)[k].0
            <= spans(l)[k].1 <= l.len() && l.subrange(spans(l)[k].0, spans(l)[k].1) == ws[k] by {
            if k < p.len() {
                assert(spans(l)[k] == sp[k]);
                lemma_prefix_subrange(s, t, sp[k].0, sp[k].1);
                assert(p[k] == ws[k]);
            } else {
                assert(l.subrange(s.len() + 1int, l.len() as int) =~= w);
            }
        }
    }
}

/// The tokens of words joined by spaces are those words.
pub proof fn lemma_tokens_joined(ws: Seq<Seq<char>>)
    requires
        ws.len() > 0,
        forall|i: int| 0 <= i < ws.len() ==> is_word(#[trigger] ws[i]),
    ensures
        tokens(joined(ws)) == ws,
{
    lemma_spans_joined(ws);
    let l = joined(ws);
    assert forall|k: int| 0 <= k < ws.len() implies tokens(l)[k] == ws[k] by {
        assert(tokens(l)[k] == l.subrange(spans(l)[k].0, spans(l)[k].1));
    }
    assert(tokens(l) =~= ws);
}

/// The first `k` words, joined, begin the joined words.
pub proof fn lemma_joined_prefix(ws: Seq<Seq<char>>, k: int)
    requires
        1 <= k <= ws.len(),
    ensures
        has_prefix(joined(ws), joined(ws.take(k))),
    decreases ws.len() - k,
{
    if k == ws.len() {
        assert(ws.take(k) =~= ws);
        assert(joined(ws).take(joined(ws).len() as int) =~= joined(ws));
    } else {
        lemma_joined_prefix(ws.drop_last(), k);
        assert(ws.drop_last().take(k) =~= ws.take(k));
        let p = joined(ws.drop_last());
        let q = joined(ws.take(k));
        assert(joined(ws) == p + seq![' '] + ws.last());
        assert((p + seq![' '] + ws.last()).take(q.len() as int) =~= p.take(q.len() as int));
    }
}

} // verus!
