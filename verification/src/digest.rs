//! Digests, hexadecimal text and the length-prefixed encoding they are taken over.

use crate::text::{chars_of, push_char};
use sha2::Digest;
use vstd::prelude::*;
use vstd::string::*;
use vstd::utf8::*;

verus! {

/// The SHA-256 digest of a byte string.
pub uninterp spec fn sha256(bytes: Seq<u8>) -> Seq<u8>;

/// Hashes a byte string.
///
/// Calls `sha2::Sha256::digest`. Its result depends on the bytes alone and is
/// named [`sha256`]; it always has thirty-two bytes.
#[verifier::external_body]
pub(crate) fn sha256_digest(bytes: &[u8]) -> (r: Vec<u8>)
    ensures
        r@ == sha256(bytes@),
        r@.len() == 32,
{
    sha2::Sha256::digest(bytes).to_vec()
}

/// The lower-case hexadecimal digit of a value below sixteen.
pub open spec fn hex_digit(n: int) -> char {
    if n < 10 {
        ('0' as int + n) as char
    } else {
        ('a' as int + n - 10) as char
    }
}

/// Two lower-case hexadecimal digits for each byte, the high one first.
pub open spec fn hex_text(bytes: Seq<u8>) -> Seq<char> {
    Seq::new(
        2 * bytes.len(),
        |i: int|
            if i % 2 == 0 {
                hex_digit(bytes[i / 2] as int / 16)
            } else {
                hex_digit(bytes[i / 2] as int % 16)
            },
    )
}

/// Writes bytes in hexadecimal.
///
/// Calls `hex::encode`, which gives two lower-case digits for each byte, high
/// half first.
#[verifier::external_body]
pub(crate) fn hex_encode(bytes: &[u8]) -> (r: String)
    ensures
        r@ == hex_text(bytes@),
{
    hex::encode(bytes)
}

/// The hexadecimal SHA-256 digest of a byte string.
pub open spec fn digest_text(bytes: Seq<u8>) -> Seq<char> {
    hex_text(sha256(bytes))
}

/// Hashes a byte string and writes the digest in hexadecimal.
pub fn hex_digest(bytes: &[u8]) -> (r: String)
    ensures
        r@ == digest_text(bytes@),
        is_lower_hex(r@, 64),
{
    let d = sha256_digest(bytes);
    let r = hex_encode(d.as_slice());
    proof {
        lemma_hex_text(d@);
    }
    r
}

/// A lower-case hexadecimal digit.
pub open spec fn is_lower_hex_char(c: char) -> bool {
    ('0' <= c <= '9') || ('a' <= c <= 'f')
}

/// A hexadecimal digit of either case.
pub open spec fn is_hex_char(c: char) -> bool {
    is_lower_hex_char(c) || ('A' <= c <= 'F')
}

/// Exactly `n` characters, all lower-case hexadecimal digits.
pub open spec fn is_lower_hex(s: Seq<char>, n: int) -> bool {
    &&& s.len() == n
    &&& forall|i: int| 0 <= i < s.len() ==> is_lower_hex_char(#[trigger] s[i])
}

pub proof fn lemma_hex_text(bytes: Seq<u8>)
    ensures
        is_lower_hex(hex_text(bytes), 2 * bytes.len() as int),
{
    let s = hex_text(bytes);
    assert forall|i: int| 0 <= i < s.len() implies is_lower_hex_char(#[trigger] s[i]) by {
        let n = if i % 2 == 0 {
            bytes[i / 2] as int / 16
        } else {
            bytes[i / 2] as int % 16
        };
        assert(0 <= n < 16);
        assert(s[i] == hex_digit(n));
    }
}

/// Hexadecimal text determines the bytes.
pub proof fn lemma_hex_text_injective(a: Seq<u8>, b: Seq<u8>)
    requires
        hex_text(a) == hex_text(b),
    ensures
        a == b,
{
    assert(hex_text(a).len() == 2 * a.len());
    assert(hex_text(b).len() == 2 * b.len());
    assert(a.len() == b.len());
    assert forall|i: int| 0 <= i < a.len() implies a[i] == b[i] by {
        let j = 2 * i;
        assert(j % 2 == 0 && j / 2 == i && (j + 1) % 2 == 1 && (j + 1) / 2 == i);
        assert(hex_text(a)[j] == hex_digit(a[i] as int / 16));
        assert(hex_text(b)[j] == hex_digit(b[i] as int / 16));
        assert(hex_text(a)[j + 1] == hex_digit(a[i] as int % 16));
        assert(hex_text(b)[j + 1] == hex_digit(b[i] as int % 16));
        assert(a[i] as int == (a[i] as int / 16) * 16 + a[i] as int % 16);
        assert(b[i] as int == (b[i] as int / 16) * 16 + b[i] as int % 16);
    }
    assert(a =~= b);
}

/// Whether a text consists of exactly `n` lower-case hexadecimal digits.
pub fn lower_hex(s: &str, n: usize) -> (r: bool)
    ensures
        r == is_lower_hex(s@, n as int),
{
    let chars = chars_of(s);
    if chars.len() != n {
        return false;
    }
    let mut i: usize = 0;
    while i < chars.len()
        invariant
            i <= chars.len(),
            chars@ == s@,
            chars.len() == n,
            forall|k: int| 0 <= k < i ==> is_lower_hex_char(#[trigger] chars@[k]),
        decreases chars.len() - i,
    {
        let c = chars[i];
        if !((c >= '0' && c <= '9') || (c >= 'a' && c <= 'f')) {
            assert(!is_lower_hex_char(chars@[i as int]));
            return false;
        }
        i += 1;
    }
    true
}

/// Exactly `n` characters, all hexadecimal digits of either case.
pub open spec fn is_hex(s: Seq<char>, n: int) -> bool {
    &&& s.len() == n
    &&& forall|i: int| 0 <= i < s.len() ==> is_hex_char(#[trigger] s[i])
}

/// Whether a text consists of exactly `n` hexadecimal digits of either case.
pub fn any_hex(s: &str, n: usize) -> (r: bool)
    ensures
        r == is_hex(s@, n as int),
{
    let chars = chars_of(s);
    if chars.len() != n {
        return false;
    }
    let mut i: usize = 0;
    while i < chars.len()
        invariant
            i <= chars.len(),
            chars@ == s@,
            chars.len() == n,
            forall|k: int| 0 <= k < i ==> is_hex_char(#[trigger] chars@[k]),
        decreases chars.len() - i,
    {
        let c = chars[i];
        if !((c >= '0' && c <= '9') || (c >= 'a' && c <= 'f') || (c >= 'A' && c <= 'F')) {
            assert(!is_hex_char(chars@[i as int]));
            return false;
        }
        i += 1;
    }
    true
}

/// Eight bytes, the most significant first.
pub open spec fn be64(n: u64) -> Seq<u8> {
    seq![
        ((n >> 56) & 0xff) as u8,
        ((n >> 48) & 0xff) as u8,
        ((n >> 40) & 0xff) as u8,
        ((n >> 32) & 0xff) as u8,
        ((n >> 24) & 0xff) as u8,
        ((n >> 16) & 0xff) as u8,
        ((n >> 8) & 0xff) as u8,
        (n & 0xff) as u8,
    ]
}

pub proof fn lemma_be64_injective(a: u64, b: u64)
    requires
        be64(a) == be64(b),
    ensures
        a == b,
{
    let x = be64(a);
    let y = be64(b);
    assert(x[0] == y[0] && x[1] == y[1] && x[2] == y[2] && x[3] == y[3]);
    assert(x[4] == y[4] && x[5] == y[5] && x[6] == y[6] && x[7] == y[7]);
    assert(a == b) by (bit_vector)
        requires
            ((a >> 56) & 0xff) as u8 == ((b >> 56) & 0xff) as u8,
            ((a >> 48) & 0xff) as u8 == ((b >> 48) & 0xff) as u8,
            ((a >> 40) & 0xff) as u8 == ((b >> 40) & 0xff) as u8,
            ((a >> 32) & 0xff) as u8 == ((b >> 32) & 0xff) as u8,
            ((a >> 24) & 0xff) as u8 == ((b >> 24) & 0xff) as u8,
            ((a >> 16) & 0xff) as u8 == ((b >> 16) & 0xff) as u8,
            ((a >> 8) & 0xff) as u8 == ((b >> 8) & 0xff) as u8,
            (a & 0xff) as u8 == (b & 0xff) as u8,
    ;
}

/// A tag, the length of the value and the value.
pub open spec fn field(tag: u8, value: Seq<u8>) -> Seq<u8> {
    seq![tag] + be64(value.len() as u64) + value
}

/// The tagged field of a text.
pub open spec fn text_field(tag: u8, value: Seq<char>) -> Seq<u8> {
    field(tag, encode_utf8(value))
}

/// The fields of a list of texts, one behind the other.
pub open spec fn text_fields(tag: u8, values: Seq<Seq<char>>) -> Seq<u8>
    decreases values.len(),
{
    if values.len() == 0 {
        Seq::empty()
    } else {
        text_fields(tag, values.drop_last()) + text_field(tag, values.last())
    }
}

/// A tag and a count.
pub open spec fn count_field(tag: u8, n: nat) -> Seq<u8> {
    seq![tag] + be64(n as u64)
}

/// A field can be read back from the front of any byte string that starts with it.
pub proof fn lemma_field_prefix(tag: u8, a: Seq<u8>, b: Seq<u8>, x: Seq<u8>, y: Seq<u8>)
    requires
        field(tag, a) + x == field(tag, b) + y,
        a.len() <= u64::MAX,
        b.len() <= u64::MAX,
    ensures
        a == b,
        x == y,
{
    let l = field(tag, a) + x;
    let r = field(tag, b) + y;
    assert(be64(a.len() as u64) =~= l.subrange(1, 9));
    assert(be64(b.len() as u64) =~= r.subrange(1, 9));
    lemma_be64_injective(a.len() as u64, b.len() as u64);
    assert(a.len() == b.len());
    assert(a =~= l.subrange(9, 9 + a.len() as int));
    assert(b =~= r.subrange(9, 9 + b.len() as int));
    assert(x =~= l.skip(9 + a.len() as int));
    assert(y =~= r.skip(9 + b.len() as int));
}

/// Concatenation is associative.
pub proof fn lemma_concat(a: Seq<u8>, b: Seq<u8>, c: Seq<u8>)
    ensures
        (a + b) + c == a + (b + c),
{
    assert((a + b) + c =~= a + (b + c));
}

/// Appends bytes.
pub fn put_bytes(out: &mut Vec<u8>, value: &[u8])
    ensures
        final(out)@ == old(out)@ + value@,
{
    let ghost start = out@;
    let mut i: usize = 0;
    while i < value.len()
        invariant
            i <= value.len(),
            out@ == start + value@.take(i as int),
        decreases value.len() - i,
    {
        out.push(value[i]);
        i += 1;
        assert(out@ =~= start + value@.take(i as int));
    }
    assert(value@.take(value@.len() as int) =~= value@);
}

/// Appends eight bytes, the most significant first.
pub fn put_u64(out: &mut Vec<u8>, n: u64)
    ensures
        final(out)@ == old(out)@ + be64(n),
{
    let ghost start = out@;
    out.push(((n >> 56) & 0xff) as u8);
    out.push(((n >> 48) & 0xff) as u8);
    out.push(((n >> 40) & 0xff) as u8);
    out.push(((n >> 32) & 0xff) as u8);
    out.push(((n >> 24) & 0xff) as u8);
    out.push(((n >> 16) & 0xff) as u8);
    out.push(((n >> 8) & 0xff) as u8);
    out.push((n & 0xff) as u8);
    assert(out@ =~= start + be64(n));
}

/// Appends a tagged field.
pub fn put_field(out: &mut Vec<u8>, tag: u8, value: &[u8])
    ensures
        final(out)@ == old(out)@ + field(tag, value@),
{
    let ghost start = out@;
    out.push(tag);
    put_u64(out, value.len() as u64);
    put_bytes(out, value);
    assert(out@ =~= start + field(tag, value@));
}

/// Appends the tagged field of a text.
pub fn put_text(out: &mut Vec<u8>, tag: u8, value: &str)
    ensures
        final(out)@ == old(out)@ + text_field(tag, value@),
{
    put_field(out, tag, value.as_bytes());
}

/// Appends the tagged field of a text in front of what is still to come.
pub(crate) fn put_text_before(out: &mut Vec<u8>, tag: u8, value: &str, Ghost(rest): Ghost<Seq<u8>>)
    ensures
        final(out)@ == old(out)@ + text_field(tag, value@),
        final(out)@ + rest == old(out)@ + (text_field(tag, value@) + rest),
{
    proof {
        lemma_concat(out@, text_field(tag, value@), rest);
    }
    put_text(out, tag, value);
}

/// Appends a tag and a count.
pub fn put_count(out: &mut Vec<u8>, tag: u8, n: usize)
    ensures
        final(out)@ == old(out)@ + count_field(tag, n as nat),
{
    let ghost start = out@;
    out.push(tag);
    put_u64(out, n as u64);
    assert(out@ =~= start + count_field(tag, n as nat));
}

/// Appends the fields of a list of texts.
pub fn put_texts(out: &mut Vec<u8>, tag: u8, values: &Vec<String>)
    ensures
        final(out)@ == old(out)@ + text_fields(tag, values.deep_view()),
{
    let ghost start = out@;
    let ghost s = values.deep_view();
    let mut i: usize = 0;
    assert(out@ =~= start + text_fields(tag, s.take(0)));
    while i < values.len()
        invariant
            i <= values.len(),
            s == values.deep_view(),
            out@ == start + text_fields(tag, s.take(i as int)),
        decreases values.len() - i,
    {
        put_text(out, tag, values[i].as_str());
        proof {
            assert(s.take(i + 1).drop_last() =~= s.take(i as int));
            assert(s.take(i + 1).last() == values@[i as int]@);
            assert(out@ =~= start + text_fields(tag, s.take(i + 1)));
        }
        i += 1;
    }
    assert(s.take(s.len() as int) =~= s);
}

/// The decimal digits of a number.
pub open spec fn decimal(n: nat) -> Seq<char>
    decreases n,
{
    if n < 10 {
        seq![('0' as int + n) as char]
    } else {
        decimal(n / 10).push(('0' as int + n % 10) as char)
    }
}

/// Writes a number in decimal.
pub fn decimal_text(n: u64) -> (r: String)
    ensures
        r@ == decimal(n as nat),
    decreases n,
{
    let d = (48u8 + (n % 10) as u8) as char;
    if n < 10 {
        let mut out = String::new();
        push_char(&mut out, d);
        assert(out@ =~= decimal(n as nat));
        out
    } else {
        let mut out = decimal_text(n / 10);
        push_char(&mut out, d);
        out
    }
}

} // verus!
