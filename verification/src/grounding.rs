//! What the plain measures of texts say.

use crate::derivation;
use crate::digest;
use crate::text;
use vstd::prelude::*;

verus! {

proof fn lemma_start_trimmed(s: Seq<char>) -> (n: int)
    ensures
        0 <= n <= s.len(),
        text::trim_start(s) == s.skip(n),
        forall|i: int| 0 <= i < n ==> text::is_white(#[trigger] s[i]),
        n < s.len() ==> !text::is_white(s[n]),
    decreases s.len(),
{
    if s.len() > 0 && text::is_white(s[0]) {
        let m = lemma_start_trimmed(s.drop_first());
        assert(s.skip(m + 1) =~= s.drop_first().skip(m));
        assert forall|i: int| 0 <= i < m + 1 implies text::is_white(#[trigger] s[i]) by {
            if i > 0 {
                assert(s.drop_first()[i - 1] == s[i]);
            }
        }
        if m + 1 < s.len() {
            assert(s.drop_first()[m] == s[m + 1]);
        }
        m + 1
    } else {
        assert(s.skip(0) =~= s);
        0
    }
}

proof fn lemma_end_trimmed(s: Seq<char>) -> (n: int)
    ensures
        0 <= n <= s.len(),
        text::trim_end(s) == s.take(n),
        forall|i: int| n <= i < s.len() ==> text::is_white(#[trigger] s[i]),
        n > 0 ==> !text::is_white(s[n - 1]),
    decreases s.len(),
{
    if s.len() > 0 && text::is_white(s.last()) {
        let m = lemma_end_trimmed(s.drop_last());
        assert(s.take(m) =~= s.drop_last().take(m));
        assert forall|i: int| m <= i < s.len() implies text::is_white(#[trigger] s[i]) by {
            if i < s.len() - 1 {
                assert(s.drop_last()[i] == s[i]);
            }
        }
        if m > 0 {
            assert(s.drop_last()[m - 1] == s[m - 1]);
        }
        m
    } else {
        assert(s.take(s.len() as int) =~= s);
        s.len() as int
    }
}

/// A text is cut at its ends by `a` and `b` characters of white space.
pub open spec fn is_cut(s: Seq<char>, out: Seq<char>, a: int, b: int) -> bool {
    &&& 0 <= a <= b <= s.len()
    &&& out == s.subrange(a, b)
    &&& forall|i: int| 0 <= i < a || b <= i < s.len() ==> text::is_white(#[trigger] s[i])
}

/// Trimming takes white space from both ends, all of it and nothing else.
pub proof fn law_trimming_takes_white_space(s: Seq<char>)
    ensures
        exists|a: int, b: int| #[trigger] is_cut(s, text::trimmed(s), a, b),
        text::trimmed(s).len() > 0 ==> !text::is_white(text::trimmed(s)[0]) && !text::is_white(
            text::trimmed(s).last(),
        ),
{
    let a = lemma_start_trimmed(s);
    let t = s.skip(a);
    let n = lemma_end_trimmed(t);
    let out = text::trimmed(s);
    assert(out == t.take(n));
    assert(out =~= s.subrange(a, a + n));
    assert forall|i: int| 0 <= i < a || a + n <= i < s.len() implies text::is_white(
        #[trigger] s[i],
    ) by {
        if i >= a + n {
            assert(t[i - a] == s[i]);
        }
    }
    assert(is_cut(s, out, a, a + n));
    if out.len() > 0 {
        assert(out[0] == s[a]);
        assert(out.last() == t[n - 1]);
    }
}

/// The place of a text in another is the first at which it stands; there is none only
/// where it stands nowhere.
pub proof fn law_found_is_the_first(s: Seq<char>, p: Seq<char>, from: int)
    requires
        0 <= from,
    ensures
        match text::first_at(s, p, from) {
            Some(i) => from <= i && i + p.len() <= s.len() && s.subrange(i, i + p.len()) == p
                && forall|q: int|
                from <= q < i ==> #[trigger] s.subrange(q, q + p.len()) != p,
            None => forall|q: int|
                from <= q && q + p.len() <= s.len() ==> #[trigger] s.subrange(q, q + p.len()) != p,
        },
    decreases s.len() - from,
{
    if from + p.len() <= s.len() && s.subrange(from, from + p.len()) != p {
        if from < s.len() {
            law_found_is_the_first(s, p, from + 1);
        } else {
            assert(p.len() == 0);
            assert(s.subrange(from, from + p.len()) =~= p);
        }
    }
}

/// The name of a commit is forty lower-case hexadecimal digits, and that of an event
/// sixty-four.
pub proof fn law_names_are_hexadecimal(s: Seq<char>)
    ensures
        derivation::is_commit_sha(s) <==> s.len() == 40 && forall|i: int|
            0 <= i < s.len() ==> ('0' <= #[trigger] s[i] <= '9') || ('a' <= s[i] <= 'f'),
        derivation::event_source(s) <==> s.len() == 64 && forall|i: int|
            0 <= i < s.len() ==> ('0' <= #[trigger] s[i] <= '9') || ('a' <= s[i] <= 'f'),
        digest::is_hex(s, 64) <==> s.len() == 64 && forall|i: int|
            0 <= i < s.len() ==> ('0' <= #[trigger] s[i] <= '9') || ('a' <= s[i] <= 'f') || ('A'
                <= s[i] <= 'F'),
{
    assert forall|i: int| 0 <= i < s.len() implies (digest::is_lower_hex_char(#[trigger] s[i]) <==> (
    '0' <= s[i] <= '9') || ('a' <= s[i] <= 'f')) by {}
    assert forall|i: int| 0 <= i < s.len() implies (digest::is_hex_char(#[trigger] s[i]) <==> ('0'
        <= s[i] <= '9') || ('a' <= s[i] <= 'f') || ('A' <= s[i] <= 'F')) by {}
}

} // verus!
