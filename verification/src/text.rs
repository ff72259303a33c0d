//! Character-level text primitives shared by the parser and the views.
//!
//! Text is modelled as a `Seq<char>`. The byte-level notions that the
//! display code needs (a string's length in bytes, the character that a
//! byte offset falls on) follow the UTF-8 encoding width of each character.
use vstd::prelude::*;
use vstd::slice::slice_subrange;

verus! {

/// std's `String::push`, documented to append the given character to the
/// end of the string; that is all this claims.
pub assume_specification[ String::push ](s: &mut String, ch: char)
    ensures
        final(s)@ == old(s)@.push(ch),
;

// ---------------------------------------------------------------------------
// Whitespace and trimming
// ---------------------------------------------------------------------------

/// The characters with the Unicode `White_Space` property
/// (what `char::is_whitespace` accepts).
pub open spec fn is_ws(c: char) -> bool {
    ||| ('\u{9}' <= c && c <= '\u{d}')
    ||| c == ' '
    ||| c == '\u{85}'
    ||| c == '\u{a0}'
    ||| c == '\u{1680}'
    ||| ('\u{2000}' <= c && c <= '\u{200a}')
    ||| c == '\u{2028}'
    ||| c == '\u{2029}'
    ||| c == '\u{202f}'
    ||| c == '\u{205f}'
    ||| c == '\u{3000}'
}

pub open spec fn trim_start(s: Seq<char>) -> Seq<char>
    decreases s.len(),
{
    if s.len() > 0 && is_ws(s[0]) {
        trim_start(s.drop_first())
    } else {
        s
    }
}

pub open spec fn trim_end(s: Seq<char>) -> Seq<char>
    decreases s.len(),
{
    if s.len() > 0 && is_ws(s.last()) {
        trim_end(s.drop_last())
    } else {
        s
    }
}

/// `str::trim`: leading and trailing whitespace removed.
pub open spec fn trim(s: Seq<char>) -> Seq<char> {
    trim_end(trim_start(s))
}

/// Trimming the end keeps a prefix, which ends in no whitespace.
pub proof fn lemma_trim_end_prefix(s: Seq<char>)
    ensures
        trim_end(s).len() <= s.len(),
        trim_end(s) == s.take(trim_end(s).len() as int),
        trim_end(s).len() == 0 || !is_ws(trim_end(s).last()),
    decreases s.len(),
{
    if s.len() > 0 && is_ws(s.last()) {
        lemma_trim_end_prefix(s.drop_last());
        let k = trim_end(s).len() as int;
        assert(s.drop_last().take(k) =~= s.take(k));
    } else {
        assert(s.take(s.len() as int) =~= s);
    }
}

/// Trimming the start leaves text that starts with no whitespace.
pub proof fn lemma_trim_start_first(s: Seq<char>)
    ensures
        trim_start(s).len() == 0 || !is_ws(trim_start(s)[0]),
    decreases s.len(),
{
    if s.len() > 0 && is_ws(s[0]) {
        lemma_trim_start_first(s.drop_first());
    }
}

/// Trimmed text is unchanged by trimming again.
pub proof fn lemma_trim_idempotent(s: Seq<char>)
    ensures
        trim(trim(s)) == trim(s),
{
    let ts = trim_start(s);
    lemma_trim_start_first(s);
    lemma_trim_end_prefix(ts);
    let t = trim(s);
    if t.len() > 0 {
        assert(t[0] == ts[0]);
        assert(trim_start(t) == t);
        lemma_trim_end_prefix(t);
    } else {
        assert(trim_start(t) == t);
    }
}

/// Trimming the start keeps a suffix.
pub proof fn lemma_trim_start_suffix(s: Seq<char>)
    ensures
        trim_start(s).len() <= s.len(),
        trim_start(s) == s.skip(s.len() - trim_start(s).len()),
    decreases s.len(),
{
    if s.len() > 0 && is_ws(s[0]) {
        lemma_trim_start_suffix(s.drop_first());
        let k = s.len() - trim_start(s).len();
        assert(s.drop_first().skip(k - 1) =~= s.skip(k));
    } else {
        assert(s.skip(0) =~= s);
    }
}

/// Trimmed text is a contiguous piece of the text: the returned bounds.
pub proof fn lemma_trim_piece(s: Seq<char>) -> (r: (int, int))
    ensures
        0 <= r.0 <= r.1 <= s.len(),
        trim(s) == s.subrange(r.0, r.1),
{
    let ts = trim_start(s);
    lemma_trim_start_suffix(s);
    lemma_trim_end_prefix(ts);
    let a = s.len() - ts.len();
    let b = a + trim_end(ts).len();
    assert(trim(s) =~= s.subrange(a, b));
    (a, b)
}

pub fn is_whitespace(c: char) -> (b: bool)
    ensures
        b == is_ws(c),
{
    ('\u{9}' <= c && c <= '\u{d}') || c == ' ' || c == '\u{85}' || c == '\u{a0}' || c
        == '\u{1680}' || ('\u{2000}' <= c && c <= '\u{200a}') || c == '\u{2028}' || c
        == '\u{2029}' || c == '\u{202f}' || c == '\u{205f}' || c == '\u{3000}'
}

pub fn trim_chars<'a>(s: &'a [char]) -> (r: &'a [char])
    ensures
        r@ == trim(s@),
{
    let n = s.len();
    let mut lo: usize = 0;
    assert(s@.subrange(0, n as int) =~= s@);
    while lo < n && is_whitespace(s[lo])
        invariant
            n == s@.len(),
            lo <= n,
            trim_start(s@) == trim_start(s@.subrange(lo as int, n as int)),
        decreases n - lo,
    {
        assert(s@.subrange(lo as int, n as int).drop_first() =~= s@.subrange(
            lo + 1,
            n as int,
        ));
        lo = lo + 1;
    }
    assert(trim_start(s@) == s@.subrange(lo as int, n as int));
    let mut hi: usize = n;
    while hi > lo && is_whitespace(s[hi - 1])
        invariant
            n == s@.len(),
            lo <= hi <= n,
            trim(s@) == trim_end(s@.subrange(lo as int, hi as int)),
        decreases hi,
    {
        assert(s@.subrange(lo as int, hi as int).drop_last() =~= s@.subrange(
            lo as int,
            hi - 1,
        ));
        hi = hi - 1;
    }
    slice_subrange(s, lo, hi)
}

// ---------------------------------------------------------------------------
// Prefixes, searching and splitting
// ---------------------------------------------------------------------------

pub open spec fn starts_with(s: Seq<char>, p: Seq<char>) -> bool {
    p.len() <= s.len() && s.take(p.len() as int) == p
}

pub open spec fn ends_with(s: Seq<char>, p: Seq<char>) -> bool {
    p.len() <= s.len() && s.skip(s.len() - p.len()) == p
}

pub open spec fn occurs_at(s: Seq<char>, p: Seq<char>, i: int) -> bool {
    0 <= i && i + p.len() <= s.len() && s.subrange(i, i + p.len()) == p
}

pub open spec fn find_from(s: Seq<char>, p: Seq<char>, i: nat) -> Option<nat>
    decreases s.len() + 1 - i,
{
    if i + p.len() > s.len() {
        None
    } else if occurs_at(s, p, i as int) {
        Some(i)
    } else {
        find_from(s, p, i + 1)
    }
}

/// `str::find`: the first position at which `p` occurs in `s`.
pub open spec fn find(s: Seq<char>, p: Seq<char>) -> Option<nat> {
    find_from(s, p, 0)
}

/// `str::split_once`: the parts before and after the first occurrence of `p`.
pub open spec fn split_once(s: Seq<char>, p: Seq<char>) -> Option<(Seq<char>, Seq<char>)> {
    match find(s, p) {
        Some(i) => Some((s.take(i as int), s.skip((i + p.len()) as int))),
        None => None,
    }
}

/// `find_from` returns the first occurrence at or after `j`.
pub proof fn lemma_find_first(s: Seq<char>, p: Seq<char>, j: nat)
    ensures
        match find_from(s, p, j) {
            Some(k) => forall|m: int| j <= m < k ==> !occurs_at(s, p, m),
            None => forall|m: int| j <= m ==> !occurs_at(s, p, m),
        },
    decreases s.len() + 1 - j,
{
    if j + p.len() <= s.len() && !occurs_at(s, p, j as int) {
        lemma_find_first(s, p, j + 1);
    }
}

pub fn starts_with_chars(s: &[char], p: &[char]) -> (b: bool)
    ensures
        b == starts_with(s@, p@),
{
    if p.len() > s.len() {
        return false;
    }
    let mut i: usize = 0;
    while i < p.len()
        invariant
            p@.len() <= s@.len(),
            i <= p@.len(),
            forall|j: int| 0 <= j < i ==> s@[j] == p@[j],
        decreases p.len() - i,
    {
        if s[i] != p[i] {
            assert(s@.take(p@.len() as int)[i as int] != p@[i as int]);
            return false;
        }
        i = i + 1;
    }
    assert(s@.take(p@.len() as int) =~= p@);
    true
}

fn matches_at(s: &[char], p: &[char], i: usize) -> (b: bool)
    requires
        i + p@.len() <= s@.len(),
    ensures
        b == occurs_at(s@, p@, i as int),
{
    let mut k: usize = 0;
    while k < p.len()
        invariant
            i + p@.len() <= s@.len(),
            s@.len() == s.len(),
            k <= p@.len(),
            forall|j: int| 0 <= j < k ==> s@[i + j] == p@[j],
        decreases p.len() - k,
    {
        if s[i + k] != p[k] {
            assert(s@.subrange(i as int, i + p@.len())[k as int] != p@[k as int]);
            return false;
        }
        k = k + 1;
    }
    assert(s@.subrange(i as int, i + p@.len()) =~= p@);
    true
}

pub fn find_chars(s: &[char], p: &[char]) -> (r: Option<usize>)
    ensures
        match r {
            Some(i) => find(s@, p@) == Some(i as nat),
            None => find(s@, p@) is None,
        },
{
    if p.len() > s.len() {
        return None;
    }
    let last = s.len() - p.len();
    let mut i: usize = 0;
    while i <= last
        invariant
            p@.len() <= s@.len(),
            last == s@.len() - p@.len(),
            i <= last + 1,
            find(s@, p@) == find_from(s@, p@, i as nat),
        decreases last + 1 - i,
    {
        if matches_at(s, p, i) {
            return Some(i);
        }
        if i == last {
            assert(find_from(s@, p@, (i + 1) as nat) is None);
            return None;
        }
        i = i + 1;
    }
    None
}

/// The index of the first occurrence of the character `c`.
pub fn find_char(s: &[char], c: char) -> (r: Option<usize>)
    ensures
        match r {
            Some(i) => find(s@, seq![c]) == Some(i as nat) && i < s@.len() && s@[i as int] == c,
            None => find(s@, seq![c]) is None,
        },
{
    let mut i: usize = 0;
    while i < s.len()
        invariant
            i <= s@.len(),
            find(s@, seq![c]) == find_from(s@, seq![c], i as nat),
        decreases s.len() - i,
    {
        if s[i] == c {
            assert(s@.subrange(i as int, i + 1) =~= seq![c]);
            return Some(i);
        }
        assert(!occurs_at(s@, seq![c], i as int)) by {
            if occurs_at(s@, seq![c], i as int) {
                assert(s@.subrange(i as int, i + 1)[0] == c);
            }
        }
        i = i + 1;
    }
    None
}

pub fn split_once_chars<'a>(s: &'a [char], p: &[char]) -> (r: Option<(&'a [char], &'a [char])>)
    ensures
        match r {
            Some((a, b)) => split_once(s@, p@) == Some((a@, b@)),
            None => split_once(s@, p@) is None,
        },
{
    match find_chars(s, p) {
        Some(i) => {
            proof {
                lemma_find_in_range(s@, p@, 0);
                assert(i + p@.len() <= s@.len());
                assert(s@.len() == s.len());
            }
            Some((slice_subrange(s, 0, i), slice_subrange(s, i + p.len(), s.len())))
        },
        None => None,
    }
}

pub proof fn lemma_find_in_range(s: Seq<char>, p: Seq<char>, i: nat)
    ensures
        find_from(s, p, i) matches Some(k) ==> i <= k && k + p.len() <= s.len() && occurs_at(
            s,
            p,
            k as int,
        ),
    decreases s.len() + 1 - i,
{
    if i + p.len() <= s.len() && !occurs_at(s, p, i as int) {
        lemma_find_in_range(s, p, i + 1);
    }
}

// ---------------------------------------------------------------------------
// Lines
// ---------------------------------------------------------------------------

/// A line without the carriage return of a `\r\n` ending.
pub open spec fn strip_cr(l: Seq<char>) -> Seq<char> {
    if l.len() > 0 && l.last() == '\r' {
        l.drop_last()
    } else {
        l
    }
}

/// `str::lines`: the text split at `\n` and `\r\n` endings; a final ending
/// adds no empty line, and a lone `\r` at the very end stays in the line.
pub open spec fn lines(s: Seq<char>) -> Seq<Seq<char>>
    decreases s.len(),
{
    if s.len() == 0 {
        seq![]
    } else {
        match find(s, seq!['\n']) {
            Some(i) => {
                proof {
                    lemma_find_in_range(s, seq!['\n'], 0);
                }
                seq![strip_cr(s.take(i as int))] + lines(s.skip(i as int + 1))
            },
            None => seq![s],
        }
    }
}

/// Reads the line that starts at `pos` and returns it with the position of
/// the line after it.
pub fn next_line<'a>(s: &'a [char], pos: usize) -> (r: (&'a [char], usize))
    requires
        pos < s@.len(),
    ensures
        pos < r.1 <= s@.len(),
        lines(s@.skip(pos as int)) == seq![r.0@] + lines(s@.skip(r.1 as int)),
{
    let rest = slice_subrange(s, pos, s.len());
    assert(rest@ =~= s@.skip(pos as int));
    match find_char(rest, '\n') {
        Some(i) => {
            let line = if i > 0 && rest[i - 1] == '\r' {
                slice_subrange(rest, 0, i - 1)
            } else {
                slice_subrange(rest, 0, i)
            };
            assert(line@ =~= strip_cr(rest@.take(i as int)));
            assert(rest@.skip(i + 1) =~= s@.skip(pos + i + 1));
            (line, pos + i + 1)
        },
        None => {
            assert(s@.skip(s@.len() as int) =~= Seq::<char>::empty());
            assert(seq![rest@] + Seq::<Seq<char>>::empty() =~= seq![rest@]);
            (rest, s.len())
        },
    }
}

// ---------------------------------------------------------------------------
// Numbers
// ---------------------------------------------------------------------------

pub open spec fn is_digit(c: char) -> bool {
    '0' <= c && c <= '9'
}

pub open spec fn digit_value(c: char) -> nat {
    ((c as u32) - ('0' as u32)) as nat
}

/// The value of a run of decimal digits.
pub open spec fn digits_value(s: Seq<char>) -> nat
    decreases s.len(),
{
    if s.len() == 0 {
        0
    } else {
        digits_value(s.drop_last()) * 10 + digit_value(s.last())
    }
}

pub open spec fn all_digits(s: Seq<char>) -> bool {
    forall|i: int| 0 <= i < s.len() ==> #[trigger] is_digit(s[i])
}

/// `<u32 as FromStr>::from_str`: an optional `+`, then at least one decimal
/// digit, with a value that fits in a `u32`.
pub open spec fn parse_u32(s: Seq<char>) -> Option<u32> {
    let d = if s.len() > 0 && s[0] == '+' {
        s.drop_first()
    } else {
        s
    };
    if d.len() > 0 && all_digits(d) && digits_value(d) <= u32::MAX {
        Some(digits_value(d) as u32)
    } else {
        None
    }
}

pub fn parse_u32_chars(s: &[char]) -> (r: Option<u32>)
    ensures
        r == parse_u32(s@),
{
    let d = if s.len() > 0 && s[0] == '+' {
        slice_subrange(s, 1, s.len())
    } else {
        s
    };
    let ghost sd = if s@.len() > 0 && s@[0] == '+' {
        s@.drop_first()
    } else {
        s@
    };
    assert(d@ =~= sd);
    if d.len() == 0 {
        return None;
    }
    let limit: u64 = 0x1_0000_0000;
    let mut value: u64 = 0;
    let mut i: usize = 0;
    while i < d.len()
        invariant
            i <= d@.len(),
            d@ == sd,
            sd == (if s@.len() > 0 && s@[0] == '+' {
                s@.drop_first()
            } else {
                s@
            }),
            limit == 0x1_0000_0000,
            all_digits(d@.take(i as int)),
            value == if digits_value(d@.take(i as int)) < limit {
                digits_value(d@.take(i as int))
            } else {
                limit as nat
            },
        decreases d.len() - i,
    {
        let c = d[i];
        if !('0' <= c && c <= '9') {
            assert(!all_digits(sd)) by {
                assert(d@[i as int] == c);
                assert(!is_digit(sd[i as int]));
            }
            return None;
        }
        assert(d@.take(i + 1).drop_last() =~= d@.take(i as int));
        let v = value * 10 + ((c as u32) - ('0' as u32)) as u64;
        value = if v < limit {
            v
        } else {
            limit
        };
        i = i + 1;
    }
    assert(d@.take(d@.len() as int) =~= d@);
    if value < limit {
        Some(value as u32)
    } else {
        None
    }
}

/// The decimal digits of `n`, without leading zeros (`"0"` for zero).
pub open spec fn decimal(n: nat) -> Seq<char>
    decreases n,
{
    if n < 10 {
        seq![digit_char(n)]
    } else {
        decimal(n / 10).push(digit_char(n % 10))
    }
}

pub open spec fn digit_char(d: nat) -> char {
    if d == 0 {
        '0'
    } else if d == 1 {
        '1'
    } else if d == 2 {
        '2'
    } else if d == 3 {
        '3'
    } else if d == 4 {
        '4'
    } else if d == 5 {
        '5'
    } else if d == 6 {
        '6'
    } else if d == 7 {
        '7'
    } else if d == 8 {
        '8'
    } else {
        '9'
    }
}

proof fn lemma_digit_char(d: nat)
    requires
        d < 10,
    ensures
        is_digit(digit_char(d)),
        digit_value(digit_char(d)) == d,
{
}

/// The decimal form of `n` is a non-empty run of digits worth `n`.
pub proof fn lemma_decimal_digits(n: nat)
    ensures
        decimal(n).len() > 0,
        all_digits(decimal(n)),
        digits_value(decimal(n)) == n,
    decreases n,
{
    if n < 10 {
        lemma_digit_char(n);
        let s = decimal(n);
        assert(s.drop_last() =~= Seq::<char>::empty());
        assert(digits_value(s) == digits_value(s.drop_last()) * 10 + digit_value(s.last()));
    } else {
        lemma_decimal_digits(n / 10);
        lemma_digit_char(n % 10);
        let s = decimal(n);
        let p = decimal(n / 10);
        assert(s.drop_last() =~= p);
        assert(digits_value(s) == digits_value(p) * 10 + digit_value(s.last()));
        assert((n / 10) * 10 + n % 10 == n) by (nonlinear_arith);
        assert forall|i: int| 0 <= i < s.len() implies #[trigger] is_digit(s[i]) by {
            if i < p.len() {
                assert(s[i] == p[i]);
            }
        }
    }
}

/// Reading back the decimal form of a `u32` gives the number.
pub proof fn lemma_parse_decimal(n: u32)
    ensures
        parse_u32(decimal(n as nat)) == Some(n),
{
    lemma_decimal_digits(n as nat);
    assert(is_digit(decimal(n as nat)[0]));
}

fn exec_digit_char(d: u32) -> (c: char)
    requires
        d < 10,
    ensures
        c == digit_char(d as nat),
{
    if d == 0 {
        '0'
    } else if d == 1 {
        '1'
    } else if d == 2 {
        '2'
    } else if d == 3 {
        '3'
    } else if d == 4 {
        '4'
    } else if d == 5 {
        '5'
    } else if d == 6 {
        '6'
    } else if d == 7 {
        '7'
    } else if d == 8 {
        '8'
    } else {
        '9'
    }
}

/// Appends the decimal form of `n` (what `format!("{}", n)` writes).
pub fn push_decimal(out: &mut String, n: u32)
    ensures
        final(out)@ == old(out)@ + decimal(n as nat),
    decreases n,
{
    if n < 10 {
        out.push(exec_digit_char(n));
        assert(decimal(n as nat) =~= seq![digit_char(n as nat)]);
    } else {
        push_decimal(out, n / 10);
        out.push(exec_digit_char(n % 10));
        assert(old(out)@ + decimal(n as nat) =~= old(out)@ + decimal((n / 10) as nat) + seq![
            digit_char((n % 10) as nat),
        ]);
    }
}

// ---------------------------------------------------------------------------
// Building strings
// ---------------------------------------------------------------------------

/// The character sequences of a list of strings.
pub open spec fn string_views(v: Seq<String>) -> Seq<Seq<char>> {
    v.map_values(|s: String| s@)
}

pub fn push_chars(out: &mut String, s: &[char])
    ensures
        final(out)@ == old(out)@ + s@,
{
    let mut i: usize = 0;
    while i < s.len()
        invariant
            i <= s@.len(),
            out@ == old(out)@ + s@.take(i as int),
        decreases s.len() - i,
    {
        out.push(s[i]);
        assert(s@.take(i + 1) =~= s@.take(i as int).push(s@[i as int]));
        i = i + 1;
    }
    assert(s@.take(s@.len() as int) =~= s@);
}

pub fn string_of(s: &[char]) -> (r: String)
    ensures
        r@ == s@,
{
    let mut out = String::new();
    push_chars(&mut out, s);
    assert(Seq::<char>::empty() + s@ =~= s@);
    out
}

pub fn chars_of(s: &str) -> (v: Vec<char>)
    ensures
        v@ == s@,
{
    let mut v: Vec<char> = Vec::new();
    for c in it: s.chars()
        invariant
            v@ == it.seq().take(it.index() as int),
    {
        v.push(c);
    }
    v
}

// ---------------------------------------------------------------------------
// UTF-8 widths
// ---------------------------------------------------------------------------

/// The number of bytes that UTF-8 takes for `c` (`char::len_utf8`).
pub open spec fn utf8_width(c: char) -> nat {
    if c <= '\u{7f}' {
        1
    } else if c <= '\u{7ff}' {
        2
    } else if c <= '\u{ffff}' {
        3
    } else {
        4
    }
}

/// The length in bytes of the UTF-8 encoding of `s` (`str::len`).
pub open spec fn byte_len(s: Seq<char>) -> nat
    decreases s.len(),
{
    if s.len() == 0 {
        0
    } else {
        byte_len(s.drop_last()) + utf8_width(s.last())
    }
}

/// `byte_len` taken from the front: the first character's width plus the rest.
pub proof fn lemma_byte_len_front(s: Seq<char>)
    requires
        s.len() > 0,
    ensures
        byte_len(s) == utf8_width(s[0]) + byte_len(s.drop_first()),
    decreases s.len(),
{
    let dl = s.drop_last();
    let df = s.drop_first();
    assert(byte_len(s) == byte_len(dl) + utf8_width(s.last()));
    if s.len() > 1 {
        lemma_byte_len_front(dl);
        assert(dl.drop_first() =~= df.drop_last());
        assert(byte_len(df) == byte_len(df.drop_last()) + utf8_width(df.last()));
        assert(dl[0] == s[0]);
        assert(df.last() == s.last());
    } else {
        assert(byte_len(dl) == 0);
        assert(byte_len(df) == 0);
    }
}

/// `utf8_width` is the length of vstd's UTF-8 encoding of one character.
pub proof fn lemma_width_is_encoding(c: char)
    ensures
        utf8_width(c) == vstd::utf8::encode_scalar(c as u32).len(),
{
    vstd::utf8::char_is_scalar(c);
    let v = c as u32;
    assert(c <= '\u{7f}' <==> v <= 0x7f);
    assert(c <= '\u{7ff}' <==> v <= 0x7ff);
    assert(c <= '\u{ffff}' <==> v <= 0xffff);
}

/// `byte_len` is the length of vstd's UTF-8 encoding of the characters.
pub proof fn lemma_byte_len_is_encoding(s: Seq<char>)
    ensures
        byte_len(s) == vstd::utf8::encode_utf8(s).len(),
    decreases s.len(),
{
    if s.len() > 0 {
        lemma_byte_len_front(s);
        lemma_byte_len_is_encoding(s.drop_first());
        lemma_width_is_encoding(s[0]);
    }
}

/// The byte lengths of two strings add up to that of their concatenation.
pub proof fn lemma_byte_len_concat(a: Seq<char>, b: Seq<char>)
    ensures
        byte_len(a + b) == byte_len(a) + byte_len(b),
    decreases b.len(),
{
    if b.len() == 0 {
        assert(a + b =~= a);
    } else {
        lemma_byte_len_concat(a, b.drop_last());
        assert((a + b).drop_last() =~= a + b.drop_last());
    }
}

/// The length in bytes of `s` (`str::len`).
pub fn str_byte_len(s: &str) -> (n: usize)
    ensures
        n == byte_len(s@),
{
    proof {
        lemma_byte_len_is_encoding(s@);
    }
    s.as_bytes().len()
}

/// The number of characters that take up exactly the first `n` bytes of `s`,
/// if byte offset `n` falls on a character boundary.
pub open spec fn char_index_of_byte(s: Seq<char>, n: nat) -> Option<nat> {
    if exists|k: nat| k <= s.len() && byte_len(s.take(k as int)) == n {
        Some(choose|k: nat| k <= s.len() && byte_len(s.take(k as int)) == n)
    } else {
        None
    }
}

pub fn char_width(c: char) -> (w: usize)
    ensures
        w == utf8_width(c),
{
    if c <= '\u{7f}' {
        1
    } else if c <= '\u{7ff}' {
        2
    } else if c <= '\u{ffff}' {
        3
    } else {
        4
    }
}

pub proof fn lemma_byte_len_take_step(s: Seq<char>, k: int)
    requires
        0 <= k < s.len(),
    ensures
        byte_len(s.take(k + 1)) == byte_len(s.take(k)) + utf8_width(s[k]),
{
    assert(s.take(k + 1).drop_last() =~= s.take(k));
}

/// Byte lengths of prefixes grow strictly with the number of characters.
pub proof fn lemma_byte_len_take_strict(s: Seq<char>, j: int, k: int)
    requires
        0 <= j < k <= s.len(),
    ensures
        byte_len(s.take(j)) + (k - j) <= byte_len(s.take(k)),
    decreases k - j,
{
    lemma_byte_len_take_step(s, k - 1);
    if j < k - 1 {
        lemma_byte_len_take_strict(s, j, k - 1);
    }
}

/// At most one character count matches a byte offset.
pub proof fn lemma_char_index_unique(s: Seq<char>, j: nat, k: nat)
    requires
        j <= s.len(),
        k <= s.len(),
        byte_len(s.take(j as int)) == byte_len(s.take(k as int)),
    ensures
        j == k,
{
    if j < k {
        lemma_byte_len_take_strict(s, j as int, k as int);
    } else if k < j {
        lemma_byte_len_take_strict(s, k as int, j as int);
    }
}

/// A string has at least as many bytes as characters.
pub proof fn lemma_chars_le_bytes(s: Seq<char>)
    ensures
        s.len() <= byte_len(s),
    decreases s.len(),
{
    if s.len() > 0 {
        lemma_chars_le_bytes(s.drop_last());
    }
}

/// Finds the character boundary at byte offset `n`, scanning from the front.
pub fn char_index_at_byte(s: &[char], n: usize) -> (r: Option<usize>)
    ensures
        match r {
            Some(k) => char_index_of_byte(s@, n as nat) == Some(k as nat) && k <= s@.len(),
            None => char_index_of_byte(s@, n as nat) is None,
        },
{
    let mut k: usize = 0;
    let mut acc: usize = 0;
    assert(s@.take(0) =~= Seq::<char>::empty());
    while k < s.len() && acc < n
        invariant
            k <= s@.len(),
            acc == byte_len(s@.take(k as int)),
            acc <= n,
            forall|j: nat| j < k ==> byte_len(#[trigger] s@.take(j as int)) < n,
        decreases s.len() - k,
    {
        let w = char_width(s[k]);
        proof {
            lemma_byte_len_take_step(s@, k as int);
        }
        if w > n - acc {
            proof {
                assert forall|j: nat| j <= s@.len() implies byte_len(
                    #[trigger] s@.take(j as int),
                ) != n by {
                    if j > k {
                        if j > k + 1 {
                            lemma_byte_len_take_strict(s@, k + 1, j as int);
                        }
                    }
                }
            }
            return None;
        }
        acc = acc + w;
        k = k + 1;
    }
    if acc == n {
        proof {
            let kk = choose|kk: nat| kk <= s@.len() && byte_len(s@.take(kk as int)) == n;
            lemma_char_index_unique(s@, kk, k as nat);
        }
        Some(k)
    } else {
        proof {
            assert forall|j: nat| j <= s@.len() implies byte_len(#[trigger] s@.take(j as int))
                != n by {
                if j > k {
                    lemma_byte_len_take_strict(s@, k as int, j as int);
                }
            }
        }
        None
    }
}

} // verus!
