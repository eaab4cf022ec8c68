//! Texts kept within a number of bytes, never cutting a character.

use crate::digest;
use crate::digest::decimal_text;
use crate::text::{bytes_len, glue3};
use vstd::prelude::*;
use vstd::string::*;
use vstd::utf8::*;

verus! {

/// The last character boundary at or before a byte position.
pub open spec fn boundary_before(bytes: Seq<u8>, e: int) -> int
    decreases e,
{
    if e <= 0 {
        0
    } else if is_char_boundary(bytes, e) {
        e
    } else {
        boundary_before(bytes, e - 1)
    }
}

/// The first character boundary at or behind a byte position.
pub open spec fn boundary_behind(bytes: Seq<u8>, e: int) -> int
    decreases bytes.len() - e,
{
    if e >= bytes.len() {
        bytes.len() as int
    } else if is_char_boundary(bytes, e) {
        e
    } else {
        boundary_behind(bytes, e + 1)
    }
}

/// As much of the beginning of a text as fits into `max` bytes.
pub open spec fn head_of(text: Seq<char>, max: int) -> Seq<char> {
    let bytes = encode_utf8(text);
    if bytes.len() <= max {
        text
    } else {
        decode_utf8(bytes.subrange(0, boundary_before(bytes, max)))
    }
}

/// A text, or its head and a note of how many bytes are missing.
pub open spec fn bounded(text: Seq<char>, max: int) -> Seq<char> {
    let bytes = encode_utf8(text);
    if bytes.len() <= max {
        text
    } else {
        let cut = boundary_before(bytes, max);
        head_of(text, max) + "\n…[cvc: truncated "@ + digest::decimal(
            (bytes.len() - cut) as nat,
        ) + " bytes]"@
    }
}

/// A text, or its head and its tail around a note of how many bytes are missing.
pub open spec fn bounded_ends(text: Seq<char>, head: int, tail: int) -> Seq<char> {
    let bytes = encode_utf8(text);
    if bytes.len() <= head + tail {
        text
    } else {
        let cut = boundary_before(bytes, head);
        let start = boundary_behind(bytes, bytes.len() - tail);
        head_of(text, head) + "\n…[cvc: truncated "@ + digest::decimal((start - cut) as nat)
            + " bytes]…\n"@ + decode_utf8(bytes.subrange(start, bytes.len() as int))
    }
}

proof fn lemma_boundary_before(bytes: Seq<u8>, e: int)
    requires
        valid_utf8(bytes),
        e <= bytes.len(),
    ensures
        0 <= boundary_before(bytes, e),
        e >= 0 ==> boundary_before(bytes, e) <= e,
        is_char_boundary(bytes, boundary_before(bytes, e)),
    decreases e,
{
    if e > 0 && !is_char_boundary(bytes, e) {
        lemma_boundary_before(bytes, e - 1);
    }
}

proof fn lemma_boundary_behind(bytes: Seq<u8>, e: int)
    requires
        valid_utf8(bytes),
        0 <= e <= bytes.len(),
    ensures
        e <= boundary_behind(bytes, e) <= bytes.len(),
        is_char_boundary(bytes, boundary_behind(bytes, e)),
    decreases bytes.len() - e,
{
    is_char_boundary_start_end_of_seq(bytes);
    if e < bytes.len() && !is_char_boundary(bytes, e) {
        lemma_boundary_behind(bytes, e + 1);
    }
}

/// As much of the beginning of a text as fits into `max` bytes.
pub fn truncate_to_boundary(text: &str, max: usize) -> (r: &str)
    ensures
        r@ == head_of(text@, max as int),
        encode_utf8(r@).len() == (if encode_utf8(text@).len() <= max {
            encode_utf8(text@).len() as int
        } else {
            boundary_before(encode_utf8(text@), max as int)
        }),
{
    let n: usize = bytes_len(text);
    if n <= max {
        return text;
    }
    let ghost bytes = encode_utf8(text@);
    proof {
        encode_utf8_valid_utf8(text@);
    }
    let mut end: usize = max;
    while end > 0 && !text.is_char_boundary(end)
        invariant
            end <= max,
            bytes == encode_utf8(text@),
            boundary_before(bytes, max as int) == boundary_before(bytes, end as int),
        decreases end,
    {
        end -= 1;
    }
    proof {
        lemma_boundary_before(bytes, max as int);
    }
    let (head, _) = text.split_at(end);
    proof {
        encode_utf8_decode_utf8(head@);
    }
    head
}

/// A text, or its head and a note of how many bytes are missing.
pub fn bounded_text(text: &str, max: usize) -> (r: String)
    ensures
        r@ == bounded(text@, max as int),
{
    let n: usize = bytes_len(text);
    if n <= max {
        return text.to_owned();
    }
    let kept = truncate_to_boundary(text, max);
    let k: usize = bytes_len(kept);
    proof {
        encode_utf8_valid_utf8(text@);
        lemma_boundary_before(encode_utf8(text@), max as int);
    }
    let missing: usize = n - k;
    let mut r = glue3(kept, "\n…[cvc: truncated ", decimal_text(missing as u64).as_str());
    r.append(" bytes]");
    r
}

/// A text, or its head and its tail around a note of how many bytes are missing.
pub fn bounded_head_tail(text: &str, head: usize, tail: usize) -> (r: String)
    requires
        head + tail <= usize::MAX,
    ensures
        r@ == bounded_ends(text@, head as int, tail as int),
{
    let n: usize = bytes_len(text);
    if n <= head + tail {
        return text.to_owned();
    }
    let kept = truncate_to_boundary(text, head);
    let k: usize = bytes_len(kept);
    let ghost bytes = encode_utf8(text@);
    proof {
        encode_utf8_valid_utf8(text@);
        lemma_boundary_before(bytes, head as int);
        lemma_boundary_behind(bytes, n - tail);
    }
    let mut start: usize = n - tail;
    while start < n && !text.is_char_boundary(start)
        invariant
            n - tail <= start <= n,
            n == bytes.len(),
            bytes == encode_utf8(text@),
            boundary_behind(bytes, n - tail) == boundary_behind(bytes, start as int),
        decreases n - start,
    {
        start += 1;
    }
    proof {
        is_char_boundary_start_end_of_seq(bytes);
    }
    let (_, rest) = text.split_at(start);
    proof {
        encode_utf8_decode_utf8(rest@);
    }
    let omitted: usize = start - k;
    let mut r = glue3(kept, "\n…[cvc: truncated ", decimal_text(omitted as u64).as_str());
    r.append(" bytes]…\n");
    r.append(rest);
    r
}

/// The head of a text is a beginning of it, fits into the bytes it was given,
/// and is the whole text where that fits.
pub proof fn law_head_fits(text: Seq<char>, max: int)
    requires
        0 <= max,
    ensures
        head_of(text, max).is_prefix_of(text),
        encode_utf8(head_of(text, max)).len() <= max,
        encode_utf8(text).len() <= max ==> bounded(text, max) == text,
{
    let bytes = encode_utf8(text);
    encode_utf8_valid_utf8(text);
    if bytes.len() > max {
        let cut = boundary_before(bytes, max);
        lemma_boundary_before(bytes, max);
        valid_utf8_split(bytes, cut);
        decode_utf8_split(bytes, cut);
        encode_utf8_decode_utf8(text);
        decode_utf8_encode_utf8(bytes.subrange(0, cut));
        let h = head_of(text, max);
        assert(text =~= h + decode_utf8(bytes.subrange(cut, bytes.len() as int)));
        assert(h =~= text.subrange(0, h.len() as int));
    } else {
        assert(text =~= text.subrange(0, text.len() as int));
    }
}

} // verus!
