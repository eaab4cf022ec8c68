//! Characters and bytes: reading, comparing and building strings.

use vstd::prelude::*;
use vstd::string::*;
use vstd::utf8::*;

verus! {

broadcast use vstd::utf8::encode_utf8_decode_utf8;

/// Appends one character.
///
/// Calls `String::push`, which puts the character at the end of the string.
#[verifier::external_body]
pub(crate) fn push_char(out: &mut String, c: char)
    ensures
        final(out)@ == old(out)@.push(c),
{
    out.push(c)
}

/// Decodes bytes as UTF-8.
///
/// Calls `String::from_utf8`, which succeeds exactly on valid UTF-8 and keeps
/// the bytes.
#[verifier::external_body]
pub(crate) fn string_from_bytes(bytes: Vec<u8>) -> (r: Option<String>)
    ensures
        r is Some <==> valid_utf8(bytes@),
        r matches Some(s) ==> s@ == decode_utf8(bytes@),
{
    String::from_utf8(bytes).ok()
}

/// Two byte strings are equal exactly when their bytes are.
pub fn bytes_equal(a: &[u8], b: &[u8]) -> (r: bool)
    ensures
        r == (a@ == b@),
{
    if a.len() != b.len() {
        return false;
    }
    let mut i: usize = 0;
    while i < a.len()
        invariant
            a.len() == b.len(),
            i <= a.len(),
            forall|k: int| 0 <= k < i ==> a@[k] == b@[k],
        decreases a.len() - i,
    {
        if a[i] != b[i] {
            return false;
        }
        i += 1;
    }
    assert(a@ =~= b@);
    true
}

/// Two texts are equal exactly when their characters are.
pub fn text_equal(a: &str, b: &str) -> (r: bool)
    ensures
        r == (a@ == b@),
{
    let r = bytes_equal(a.as_bytes(), b.as_bytes());
    proof {
        if r {
            assert(decode_utf8(encode_utf8(a@)) == decode_utf8(encode_utf8(b@)));
        }
    }
    r
}

/// The characters of a text.
pub fn chars_of(s: &str) -> (r: Vec<char>)
    ensures
        r@ == s@,
{
    let mut out: Vec<char> = Vec::new();
    for c in it: s.chars()
        invariant
            it.seq() == s@,
            out@ == s@.take(it.index()),
    {
        out.push(c);
    }
    assert(s@.take(s@.len() as int) =~= s@);
    out
}

/// The text made of the characters `from..to`.
pub fn text_of(chars: &[char], from: usize, to: usize) -> (r: String)
    requires
        from <= to <= chars@.len(),
    ensures
        r@ == chars@.subrange(from as int, to as int),
{
    let mut out = String::new();
    let mut i: usize = from;
    while i < to
        invariant
            from <= i <= to <= chars@.len(),
            out@ == chars@.subrange(from as int, i as int),
        decreases to - i,
    {
        push_char(&mut out, chars[i]);
        i += 1;
        assert(out@ =~= chars@.subrange(from as int, i as int));
    }
    out
}


/// The number of bytes of a text.
pub open spec fn byte_len(s: Seq<char>) -> nat {
    encode_utf8(s).len()
}

/// The number of bytes of a text.
pub fn bytes_len(s: &str) -> (r: usize)
    ensures
        r == byte_len(s@),
{
    s.as_bytes().len()
}

/// `s` starts with `p`.
pub open spec fn has_prefix(s: Seq<char>, p: Seq<char>) -> bool {
    p.len() <= s.len() && s.take(p.len() as int) == p
}

/// `s` ends with `p`.
pub open spec fn has_suffix(s: Seq<char>, p: Seq<char>) -> bool {
    p.len() <= s.len() && s.skip(s.len() - p.len()) == p
}

/// Whether the characters of `p` stand in `s` from position `at` on.
pub fn matches_at(s: &[char], at: usize, p: &[char]) -> (r: bool)
    ensures
        r == (at + p@.len() <= s@.len() && s@.subrange(at as int, at + p@.len()) == p@),
{
    if at > s.len() || p.len() > s.len() - at {
        return false;
    }
    let mut i: usize = 0;
    while i < p.len()
        invariant
            i <= p.len(),
            at + p.len() <= s.len(),
            forall|k: int| 0 <= k < i ==> s@[at + k] == p@[k],
        decreases p.len() - i,
    {
        if s[at + i] != p[i] {
            assert(s@.subrange(at as int, at + p@.len())[i as int] != p@[i as int]);
            return false;
        }
        i += 1;
    }
    assert(s@.subrange(at as int, at + p@.len()) =~= p@);
    true
}

/// Whether `s` starts with `p`.
pub fn starts_with(s: &str, p: &str) -> (r: bool)
    ensures
        r == has_prefix(s@, p@),
{
    let a = chars_of(s);
    let b = chars_of(p);
    assert(b@.len() <= a@.len() ==> a@.subrange(0, b@.len() as int) =~= a@.take(b@.len() as int));
    matches_at(a.as_slice(), 0, b.as_slice())
}

/// Whether `s` ends with `p`.
pub fn ends_with(s: &str, p: &str) -> (r: bool)
    ensures
        r == has_suffix(s@, p@),
{
    let a = chars_of(s);
    let b = chars_of(p);
    if b.len() > a.len() {
        return false;
    }
    assert(a@.subrange(a@.len() - b@.len(), a@.len() as int) =~= a@.skip(a@.len() - b@.len()));
    matches_at(a.as_slice(), a.len() - b.len(), b.as_slice())
}

/// Two texts, one behind the other.
pub fn glue(a: &str, b: &str) -> (r: String)
    ensures
        r@ == a@ + b@,
{
    let mut out = a.to_owned();
    out.append(b);
    out
}

/// Three texts, one behind the other.
pub fn glue3(a: &str, b: &str, c: &str) -> (r: String)
    ensures
        r@ == a@ + b@ + c@,
{
    let mut out = a.to_owned();
    out.append(b);
    out.append(c);
    out
}

/// A character with the Unicode property White_Space.
pub open spec fn is_white(c: char) -> bool {
    ||| '\u{9}' <= c <= '\u{d}'
    ||| c == ' '
    ||| c == '\u{85}'
    ||| c == '\u{a0}'
    ||| c == '\u{1680}'
    ||| '\u{2000}' <= c <= '\u{200a}'
    ||| c == '\u{2028}'
    ||| c == '\u{2029}'
    ||| c == '\u{202f}'
    ||| c == '\u{205f}'
    ||| c == '\u{3000}'
}

/// Whether a character has the Unicode property White_Space.
pub fn white(c: char) -> (r: bool)
    ensures
        r == is_white(c),
{
    (c >= '\u{9}' && c <= '\u{d}') || c == ' ' || c == '\u{85}' || c == '\u{a0}' || c == '\u{1680}'
        || (c >= '\u{2000}' && c <= '\u{200a}') || c == '\u{2028}' || c == '\u{2029}' || c
        == '\u{202f}' || c == '\u{205f}' || c == '\u{3000}'
}

/// `s` without white space at its start.
pub open spec fn trim_start(s: Seq<char>) -> Seq<char>
    decreases s.len(),
{
    if s.len() > 0 && is_white(s[0]) {
        trim_start(s.drop_first())
    } else {
        s
    }
}

/// `s` without white space at its end.
pub open spec fn trim_end(s: Seq<char>) -> Seq<char>
    decreases s.len(),
{
    if s.len() > 0 && is_white(s.last()) {
        trim_end(s.drop_last())
    } else {
        s
    }
}

/// `s` without white space at either end.
pub open spec fn trimmed(s: Seq<char>) -> Seq<char> {
    trim_end(trim_start(s))
}

/// The text without white space at either end.
pub fn trim(s: &str) -> (r: String)
    ensures
        r@ == trimmed(s@),
{
    let chars = chars_of(s);
    let n: usize = chars.len();
    let mut from: usize = 0;
    assert(chars@.subrange(0, n as int) =~= chars@);
    while from < n && white(chars[from])
        invariant
            from <= n,
            n == chars@.len(),
            chars@ == s@,
            trim_start(chars@) == trim_start(chars@.subrange(from as int, n as int)),
        decreases n - from,
    {
        proof {
            let t = chars@.subrange(from as int, n as int);
            assert(t.drop_first() =~= chars@.subrange(from + 1, n as int));
        }
        from += 1;
    }
    let mut to: usize = n;
    assert(trim_start(chars@) == chars@.subrange(from as int, n as int));
    while from < to && white(chars[to - 1])
        invariant
            from <= to <= n,
            n == chars@.len(),
            chars@ == s@,
            trimmed(chars@) == trim_end(chars@.subrange(from as int, to as int)),
        decreases to - from,
    {
        proof {
            let t = chars@.subrange(from as int, to as int);
            assert(t.drop_last() =~= chars@.subrange(from as int, to - 1));
        }
        to -= 1;
    }
    text_of(chars.as_slice(), from, to)
}

/// Whether a text holds nothing but white space.
pub fn is_blank(s: &str) -> (r: bool)
    ensures
        r == (trimmed(s@).len() == 0),
{
    let t = trim(s);
    t.as_str().is_empty()
}

/// The value of a row of decimal digits.
pub open spec fn decimal_value(s: Seq<char>) -> nat
    decreases s.len(),
{
    if s.len() == 0 {
        0
    } else {
        10 * decimal_value(s.drop_last()) + (s.last() as int - '0' as int) as nat
    }
}

/// One or more decimal digits.
pub open spec fn is_decimal(s: Seq<char>) -> bool {
    s.len() > 0 && forall|i: int| 0 <= i < s.len() ==> '0' <= #[trigger] s[i] <= '9'
}

/// The number that a text stands for: decimal digits, with or without a plus
/// sign in front, that fit in 64 bits.
pub open spec fn number_of(s: Seq<char>) -> Option<u64> {
    let digits = if s.len() > 0 && s[0] == '+' {
        s.drop_first()
    } else {
        s
    };
    if is_decimal(digits) && decimal_value(digits) <= u64::MAX {
        Some(decimal_value(digits) as u64)
    } else {
        None
    }
}

/// Longer rows of digits stand for no smaller numbers.
proof fn lemma_decimal_value_grows(s: Seq<char>, i: int)
    requires
        is_decimal(s),
        0 <= i <= s.len(),
    ensures
        decimal_value(s.take(i)) <= decimal_value(s),
    decreases s.len() - i,
{
    if i < s.len() {
        lemma_decimal_value_grows(s, i + 1);
        assert(s.take(i + 1).drop_last() =~= s.take(i));
        assert('0' <= s[i] <= '9');
    } else {
        assert(s.take(i) =~= s);
    }
}

/// Reads a number.
pub fn parse_number(s: &str) -> (r: Option<u64>)
    ensures
        r == number_of(s@),
{
    let chars = chars_of(s);
    let from: usize = if chars.len() > 0 && chars[0] == '+' {
        1
    } else {
        0
    };
    let ghost digits = chars@.skip(from as int);
    assert(from == 1 ==> s@.drop_first() =~= digits);
    assert(from == 0 ==> s@ =~= digits);
    if chars.len() == from {
        return None;
    }
    let mut all = true;
    let mut i: usize = from;
    while i < chars.len()
        invariant
            from <= i <= chars.len(),
            digits == chars@.skip(from as int),
            all <==> forall|k: int| 0 <= k < i - from ==> '0' <= #[trigger] digits[k] <= '9',
        decreases chars.len() - i,
    {
        assert(digits[i - from] == chars@[i as int]);
        if chars[i] < '0' || chars[i] > '9' {
            all = false;
        }
        i += 1;
    }
    if !all {
        return None;
    }
    let mut value: u64 = 0;
    let mut j: usize = from;
    assert(digits.take(0) =~= Seq::empty());
    while j < chars.len()
        invariant
            from <= j <= chars.len(),
            digits == chars@.skip(from as int),
            is_decimal(digits),
            digits.len() == chars@.len() - from,
            (from == 1 ==> s@.len() > 0 && s@[0] == '+' && s@.drop_first() == digits),
            (from == 0 ==> !(s@.len() > 0 && s@[0] == '+') && s@ == digits),
            from <= 1,
            value == decimal_value(digits.take(j - from)),
        decreases chars.len() - j,
    {
        proof {
            assert(digits.take(j - from + 1).drop_last() =~= digits.take(j - from));
            assert(digits.take(j - from + 1).last() == chars@[j as int]);
            assert('0' <= digits[j - from] <= '9');
            lemma_decimal_value_grows(digits, j - from + 1);
        }
        let d: u64 = (chars[j] as u32 - 48) as u64;
        if value > (u64::MAX - d) / 10 {
            return None;
        }
        value = value * 10 + d;
        j += 1;
    }
    assert(digits.take(digits.len() as int) =~= digits);
    Some(value)
}

/// The bytes of two texts in a row.
pub proof fn lemma_encode_joined(a: Seq<char>, b: Seq<char>)
    ensures
        encode_utf8(a + b) == encode_utf8(a) + encode_utf8(b),
    decreases a.len(),
{
    if a.len() == 0 {
        assert(a + b =~= b);
        assert(encode_utf8(a) + encode_utf8(b) =~= encode_utf8(b));
    } else {
        lemma_encode_joined(a.drop_first(), b);
        assert((a + b).drop_first() =~= a.drop_first() + b);
        assert((a + b)[0] == a[0]);
        assert(encode_utf8(a + b) =~= encode_utf8(a) + encode_utf8(b));
    }
}

/// The position of the first `c` at or behind `from`, or the end.
pub open spec fn next_at(s: Seq<char>, c: char, from: int) -> int
    decreases s.len() - from,
{
    if from < 0 || from >= s.len() || s[from] == c {
        from
    } else {
        next_at(s, c, from + 1)
    }
}

pub proof fn lemma_next_at(s: Seq<char>, c: char, from: int)
    requires
        0 <= from <= s.len(),
    ensures
        from <= next_at(s, c, from) <= s.len(),
        next_at(s, c, from) < s.len() ==> s[next_at(s, c, from)] == c,
        forall|i: int| from <= i < next_at(s, c, from) ==> s[i] != c,
    decreases s.len() - from,
{
    if from < s.len() && s[from] != c {
        lemma_next_at(s, c, from + 1);
    }
}

/// The pieces between the separators `c`, from `from` on.
pub open spec fn pieces_from(s: Seq<char>, c: char, from: int) -> Seq<Seq<char>>
    decreases s.len() - from,
{
    let e = next_at(s, c, from);
    if from < 0 || from > s.len() || e < from || e >= s.len() {
        seq![s.subrange(from, s.len() as int)]
    } else {
        seq![s.subrange(from, e)] + pieces_from(s, c, e + 1)
    }
}

/// The pieces between the separators `c`.
pub open spec fn pieces(s: Seq<char>, c: char) -> Seq<Seq<char>> {
    pieces_from(s, c, 0)
}

proof fn lemma_next_is(s: Seq<char>, c: char, from: int, e: int)
    requires
        0 <= from <= e <= s.len(),
        e < s.len() ==> s[e] == c,
        forall|i: int| from <= i < e ==> s[i] != c,
    ensures
        next_at(s, c, from) == e,
    decreases e - from,
{
    if from < e {
        lemma_next_is(s, c, from + 1, e);
    }
}

/// The pieces of the end of a text are those of the text from there on.
proof fn lemma_pieces_shift(s: Seq<char>, b: Seq<char>, c: char, k: int, from: int)
    requires
        0 <= k <= s.len(),
        s.skip(k) == b,
        0 <= from <= b.len(),
    ensures
        pieces_from(s, c, k + from) == pieces_from(b, c, from),
    decreases b.len() - from,
{
    lemma_next_at(b, c, from);
    let e = next_at(b, c, from);
    assert forall|i: int| 0 <= i < b.len() implies b[i] == s[k + i] by {}
    assert forall|i: int| k + from <= i < k + e implies s[i] != c by {
        assert(b[i - k] == s[i]);
    }
    lemma_next_is(s, c, k + from, k + e);
    assert(s.subrange(k + from, k + e) =~= b.subrange(from, e));
    if e < b.len() {
        lemma_pieces_shift(s, b, c, k, e + 1);
    }
}

proof fn lemma_pieces_front(a: Seq<char>, b: Seq<char>, c: char, from: int)
    requires
        0 <= from <= a.len(),
    ensures
        pieces_from(a + seq![c] + b, c, from) == pieces_from(a, c, from) + pieces(b, c),
    decreases a.len() - from,
{
    let s = a + seq![c] + b;
    lemma_next_at(a, c, from);
    let e = next_at(a, c, from);
    assert forall|i: int| 0 <= i < a.len() implies s[i] == a[i] by {}
    lemma_next_is(s, c, from, e);
    assert(s.subrange(from, e) =~= a.subrange(from, e));
    if e < a.len() {
        lemma_pieces_front(a, b, c, e + 1);
        assert(pieces_from(s, c, from) =~= pieces_from(a, c, from) + pieces(b, c));
    } else {
        assert(s.skip(e + 1) =~= b);
        lemma_pieces_shift(s, b, c, e + 1, 0);
    }
}

/// A text with a separator in it has the pieces before it and those behind it.
pub proof fn lemma_pieces_joined(a: Seq<char>, b: Seq<char>, c: char)
    ensures
        pieces(a + seq![c] + b, c) == pieces(a, c) + pieces(b, c),
{
    lemma_pieces_front(a, b, c, 0);
}

/// A text without separators is one piece.
pub proof fn lemma_one_piece(s: Seq<char>, c: char)
    requires
        forall|i: int| 0 <= i < s.len() ==> s[i] != c,
    ensures
        pieces(s, c) == seq![s],
{
    lemma_next_is(s, c, 0, s.len() as int);
    assert(s.subrange(0, s.len() as int) =~= s);
}

/// Pieces, each ended by the separator.
pub open spec fn ended(parts: Seq<Seq<char>>, c: char) -> Seq<char>
    decreases parts.len(),
{
    if parts.len() == 0 {
        Seq::empty()
    } else {
        ended(parts.drop_last(), c) + parts.last() + seq![c]
    }
}

proof fn lemma_ended_joined(a: Seq<Seq<char>>, b: Seq<Seq<char>>, c: char)
    ensures
        ended(a + b, c) == ended(a, c) + ended(b, c),
    decreases b.len(),
{
    if b.len() == 0 {
        assert(a + b =~= a);
        assert(ended(a, c) + ended(b, c) =~= ended(a, c));
    } else {
        assert((a + b).drop_last() =~= a + b.drop_last());
        lemma_ended_joined(a, b.drop_last(), c);
        assert(ended(a + b, c) =~= ended(a, c) + ended(b, c));
    }
}

proof fn lemma_pieces_from_rejoin(s: Seq<char>, c: char, from: int)
    requires
        0 <= from <= s.len(),
    ensures
        ended(pieces_from(s, c, from), c) == s.skip(from).push(c),
    decreases s.len() - from,
{
    lemma_next_at(s, c, from);
    let e = next_at(s, c, from);
    let first = seq![s.subrange(from, e)];
    reveal_with_fuel(ended, 2);
    assert(first.drop_last() =~= Seq::empty());
    assert(first.last() == s.subrange(from, e));
    assert(ended(first, c) =~= s.subrange(from, e) + seq![c]);
    if e < s.len() {
        lemma_pieces_from_rejoin(s, c, e + 1);
        lemma_ended_joined(first, pieces_from(s, c, e + 1), c);
        assert(s.subrange(from, e) + seq![c] + s.skip(e + 1).push(c) =~= s.skip(from).push(c));
    } else {
        assert(s.subrange(from, e) + seq![c] =~= s.skip(from).push(c));
    }
}

/// The pieces of a text make the text again.
pub proof fn lemma_pieces_rejoin(s: Seq<char>, c: char)
    ensures
        ended(pieces(s, c), c) == s.push(c),
{
    lemma_pieces_from_rejoin(s, c, 0);
    assert(s.skip(0) =~= s);
}

/// Cuts a text at every separator.
pub fn split_text(s: &str, c: char) -> (r: Vec<String>)
    ensures
        r.deep_view() == pieces(s@, c),
{
    let chars = chars_of(s);
    let n: usize = chars.len();
    let mut out: Vec<String> = Vec::new();
    let mut from: usize = 0;
    assert(out.deep_view() + pieces_from(s@, c, 0) =~= pieces(s@, c));
    loop
        invariant
            from <= n,
            n == chars@.len(),
            chars@ == s@,
            out.deep_view() + pieces_from(s@, c, from as int) == pieces(s@, c),
        decreases n - from,
    {
        let mut e: usize = from;
        while e < n && chars[e] != c
            invariant
                from <= e <= n,
                n == chars@.len(),
                chars@ == s@,
                next_at(s@, c, from as int) == next_at(s@, c, e as int),
            decreases n - e,
        {
            e += 1;
        }
        let ghost held = out.deep_view();
        out.push(text_of(chars.as_slice(), from, e));
        let ghost piece = s@.subrange(from as int, e as int);
        assert(out.deep_view() =~= held.push(piece));
        if e == n {
            assert(out.deep_view() =~= pieces(s@, c));
            return out;
        }
        assert(out.deep_view() + pieces_from(s@, c, e + 1) =~= held + (seq![piece] + pieces_from(
            s@,
            c,
            e + 1,
        )));
        from = e + 1;
    }
}

/// The position of the first `p` in `s` at or behind `from`.
pub open spec fn first_at(s: Seq<char>, p: Seq<char>, from: int) -> Option<int>
    decreases s.len() - from,
{
    if from < 0 || from + p.len() > s.len() {
        None
    } else if s.subrange(from, from + p.len()) == p {
        Some(from)
    } else if from >= s.len() {
        None
    } else {
        first_at(s, p, from + 1)
    }
}

/// What is found stands there.
pub proof fn lemma_stands(s: Seq<char>, p: Seq<char>, from: int)
    ensures
        first_at(s, p, from) matches Some(at) ==> from <= at && 0 <= at && at + p.len() <= s.len()
            && s.subrange(at, at + p.len()) == p,
    decreases s.len() - from,
{
    if 0 <= from && from + p.len() <= s.len() && from < s.len() && s.subrange(from, from + p.len())
        != p {
        lemma_stands(s, p, from + 1);
    }
}

/// A text that stands somewhere is found.
pub proof fn lemma_found(s: Seq<char>, p: Seq<char>, from: int, at: int)
    requires
        0 <= from <= at,
        at + p.len() <= s.len(),
        p.len() > 0,
        s.subrange(at, at + p.len()) == p,
    ensures
        first_at(s, p, from) is Some,
    decreases at - from,
{
    if from < at && s.subrange(from, from + p.len()) != p {
        lemma_found(s, p, from + 1, at);
    }
}

/// The position of the first `p` in `s`.
pub fn find_text(s: &[char], p: &[char], from: usize) -> (r: Option<usize>)
    requires
        from <= s@.len(),
    ensures
        match r {
            Some(k) => first_at(s@, p@, from as int) == Some(k as int) && from <= k && k + p@.len()
                <= s@.len() && s@.subrange(k as int, k + p@.len()) == p@,
            None => first_at(s@, p@, from as int) is None,
        },
{
    let mut k: usize = from;
    while p.len() <= s.len() - k
        invariant
            from <= k <= s@.len(),
            first_at(s@, p@, from as int) == first_at(s@, p@, k as int),
        decreases s@.len() - k,
    {
        if matches_at(s, k, p) {
            return Some(k);
        }
        if k == s.len() {
            return None;
        }
        k += 1;
    }
    None
}

/// Whether `s` holds `p`.
pub fn contains_text(s: &str, p: &str) -> (r: bool)
    ensures
        r == (first_at(s@, p@, 0) is Some),
{
    let a = chars_of(s);
    let b = chars_of(p);
    find_text(a.as_slice(), b.as_slice(), 0).is_some()
}

/// `s` with every occurrence of `p`, found from the left, replaced by `with`.
pub open spec fn replaced(s: Seq<char>, p: Seq<char>, with: Seq<char>) -> Seq<char>
    decreases s.len(),
{
    if p.len() == 0 || s.len() < p.len() {
        s
    } else if s.take(p.len() as int) == p {
        with + replaced(s.skip(p.len() as int), p, with)
    } else {
        seq![s[0]] + replaced(s.drop_first(), p, with)
    }
}

/// Replaces every occurrence of a text.
pub fn replace_text(s: &str, p: &str, with: &str) -> (r: String)
    ensures
        r@ == replaced(s@, p@, with@),
{
    let a = chars_of(s);
    let b = chars_of(p);
    let n: usize = a.len();
    let m: usize = b.len();
    if m == 0 {
        return s.to_owned();
    }
    let mut out = String::new();
    let mut k: usize = 0;
    assert(a@.skip(0) =~= a@);
    assert(out@ + replaced(a@.skip(0), p@, with@) =~= replaced(s@, p@, with@));
    while n - k >= m
        invariant
            k <= n,
            n == a@.len(),
            m == b@.len(),
            m > 0,
            a@ == s@,
            b@ == p@,
            out@ + replaced(a@.skip(k as int), p@, with@) == replaced(s@, p@, with@),
        decreases n - k,
    {
        let ghost rest = a@.skip(k as int);
        let ghost held = out@;
        assert(rest.take(m as int) =~= a@.subrange(k as int, k + m));
        if matches_at(a.as_slice(), k, b.as_slice()) {
            out.append(with);
            assert(rest.skip(m as int) =~= a@.skip(k + m));
            assert(held + (with@ + replaced(a@.skip(k + m), p@, with@)) =~= out@ + replaced(
                a@.skip(k + m),
                p@,
                with@,
            ));
            k += m;
        } else {
            push_char(&mut out, a[k]);
            assert(rest.drop_first() =~= a@.skip(k + 1));
            assert(held + (seq![rest[0]] + replaced(a@.skip(k + 1), p@, with@)) =~= out@ + replaced(
                a@.skip(k + 1),
                p@,
                with@,
            ));
            k += 1;
        }
    }
    let tail = text_of(a.as_slice(), k, n);
    assert(tail@ =~= a@.skip(k as int));
    out.append(tail.as_str());
    out
}

/// Texts put together with a separator between each two.
pub open spec fn joined(parts: Seq<Seq<char>>, sep: Seq<char>) -> Seq<char>
    decreases parts.len(),
{
    if parts.len() == 0 {
        Seq::empty()
    } else if parts.len() == 1 {
        parts[0]
    } else {
        joined(parts.drop_last(), sep) + sep + parts.last()
    }
}

/// Puts texts together with a separator between each two.
pub fn join_texts(parts: &Vec<String>, sep: &str) -> (r: String)
    ensures
        r@ == joined(parts.deep_view(), sep@),
{
    let ghost s = parts.deep_view();
    let mut out = String::new();
    let mut k: usize = 0;
    assert(out@ =~= joined(s.take(0), sep@));
    while k < parts.len()
        invariant
            k <= parts.len(),
            s == parts.deep_view(),
            out@ == joined(s.take(k as int), sep@),
        decreases parts.len() - k,
    {
        proof {
            assert(s[k as int] == parts@[k as int]@);
            assert(s.take(k + 1).drop_last() =~= s.take(k as int));
            assert(s.take(k + 1).last() == s[k as int]);
            assert(s.take(k + 1)[0] == s[0]);
        }
        if k > 0 {
            out.append(sep);
        }
        out.append(parts[k].as_str());
        assert(out@ =~= joined(s.take(k + 1), sep@));
        k += 1;
    }
    assert(s.take(s.len() as int) =~= s);
    out
}

} // verus!
