//! Fail-closed capture sanitization and repository-local capture policy.

use crate::digest;
use crate::digest::{any_hex, decimal_text, put_bytes};
use crate::json;
use crate::json::{Json, JsonModel, Member, parse_json, print_json, set_member};
use crate::models;
use crate::models::{format_uuid, random_uuid};
use crate::text;
use crate::text::{
    bytes_len, chars_of, contains_text, find_text, glue, glue3, push_char, split_text,
    starts_with, string_from_bytes, text_equal, text_of, trim,
};
use vstd::prelude::*;
use vstd::string::*;
use vstd::utf8::*;

verus! {

pub const MAX_TEXT: usize = 1_048_576;

pub const MAX_POLICY: usize = 65_536;

pub const MAX_DIRECTIVE: usize = 4096;

pub const MAX_REGEXES: usize = 64;

pub const MAX_LITERALS: usize = 128;

pub const MAX_MATCHES: usize = 256;

pub const MAX_CONTEXT: usize = 256;

pub const MAX_TOOLS: usize = 256;

pub const MAX_CAPTURE_BYTES: usize = 16_777_216;

pub const PRIVACY_NOTICE_VERSION: u32 = 1;

/// What a policy, a capture or the privacy state is refused for.
#[derive(Debug, Clone, Copy, PartialEq, Eq, Structural)]
pub enum PolicyFault {
    BuiltinPattern,
    TooManySecrets,
    TooManyPolicyMatches,
    UnsanitizedJson,
    Oversized,
    DirectiveOversized,
    InvalidLiteral,
    UnsafeRegex,
    MalformedRegex,
    UnknownDirective,
    UnsafePath,
    CollectionLimit,
    UnsafeConversationId,
    UnsafeRequestId,
    InvalidBlobOid,
    InvalidLinkOid,
    InvalidLinkType,
    NoticeVersion,
    ConsentRequired,
    EmptyPushUrl,
    InvalidFingerprint,
}

impl PolicyFault {
    /// The message for people.
    pub open spec fn text(self) -> Seq<char> {
        match self {
            PolicyFault::BuiltinPattern => "built-in privacy regex is invalid"@,
            PolicyFault::TooManySecrets => "too many secret matches"@,
            PolicyFault::TooManyPolicyMatches => "too many policy matches"@,
            PolicyFault::UnsanitizedJson => "unsanitized JSON value"@,
            PolicyFault::Oversized => "policy oversized"@,
            PolicyFault::DirectiveOversized => "directive oversized"@,
            PolicyFault::InvalidLiteral => "invalid or excessive literal"@,
            PolicyFault::UnsafeRegex => "unsafe regex"@,
            PolicyFault::MalformedRegex => "malformed regex"@,
            PolicyFault::UnknownDirective => "unknown directive"@,
            PolicyFault::UnsafePath => "unsafe path"@,
            PolicyFault::CollectionLimit => "capture collection exceeds limit"@,
            PolicyFault::UnsafeConversationId => "unsafe or inconsistent conversation id"@,
            PolicyFault::UnsafeRequestId => "unsafe source request id"@,
            PolicyFault::InvalidBlobOid => "invalid git blob oid"@,
            PolicyFault::InvalidLinkOid => "invalid link oid"@,
            PolicyFault::InvalidLinkType => "invalid link type"@,
            PolicyFault::NoticeVersion => "privacy notice version is unsupported"@,
            PolicyFault::ConsentRequired => "sharing consent is required"@,
            PolicyFault::EmptyPushUrl => "remote has an empty push URL"@,
            PolicyFault::InvalidFingerprint => "invalid destination fingerprint"@,
        }
    }

    /// The message for people.
    pub fn message(&self) -> (r: &'static str)
        ensures
            r@ == self.text(),
    {
        match self {
            PolicyFault::BuiltinPattern => "built-in privacy regex is invalid",
            PolicyFault::TooManySecrets => "too many secret matches",
            PolicyFault::TooManyPolicyMatches => "too many policy matches",
            PolicyFault::UnsanitizedJson => "unsanitized JSON value",
            PolicyFault::Oversized => "policy oversized",
            PolicyFault::DirectiveOversized => "directive oversized",
            PolicyFault::InvalidLiteral => "invalid or excessive literal",
            PolicyFault::UnsafeRegex => "unsafe regex",
            PolicyFault::MalformedRegex => "malformed regex",
            PolicyFault::UnknownDirective => "unknown directive",
            PolicyFault::UnsafePath => "unsafe path",
            PolicyFault::CollectionLimit => "capture collection exceeds limit",
            PolicyFault::UnsafeConversationId => "unsafe or inconsistent conversation id",
            PolicyFault::UnsafeRequestId => "unsafe source request id",
            PolicyFault::InvalidBlobOid => "invalid git blob oid",
            PolicyFault::InvalidLinkOid => "invalid link oid",
            PolicyFault::InvalidLinkType => "invalid link type",
            PolicyFault::NoticeVersion => "privacy notice version is unsupported",
            PolicyFault::ConsentRequired => "sharing consent is required",
            PolicyFault::EmptyPushUrl => "remote has an empty push URL",
            PolicyFault::InvalidFingerprint => "invalid destination fingerprint",
        }
    }
}

/// Why a value may not be captured or shared.
#[derive(Debug, Clone, Copy, PartialEq, Eq, Structural)]
pub enum PrivacyError {
    TooLarge,
    Policy(PolicyFault),
}

impl PrivacyError {
    /// The message for people.
    pub open spec fn text(self) -> Seq<char> {
        match self {
            PrivacyError::TooLarge => "capture value exceeds limit"@,
            PrivacyError::Policy(fault) => "invalid .thoughtignore: "@ + fault.text(),
        }
    }

    /// The message for people.
    pub fn message(&self) -> (r: String)
        ensures
            r@ == self.text(),
    {
        match self {
            PrivacyError::TooLarge => "capture value exceeds limit".to_owned(),
            PrivacyError::Policy(fault) => glue("invalid .thoughtignore: ", fault.message()),
        }
    }
}

/// Whether a pattern is one that the regular expression library accepts.
pub uninterp spec fn valid_pattern(pattern: Seq<char>) -> bool;

/// Where a pattern matches in a text: the byte positions of the start and the
/// end of each match.
pub uninterp spec fn matched_spans(pattern: Seq<char>, text: Seq<char>) -> Seq<(usize, usize)>;

/// Matches in a byte string: each ends behind its start and before the next
/// one, and none cuts a character.
pub open spec fn ordered_spans(spans: Seq<(usize, usize)>, bytes: Seq<u8>) -> bool {
    &&& forall|i: int|
        0 <= i < spans.len() ==> {
            &&& (#[trigger] spans[i]).0 <= spans[i].1 <= bytes.len()
            &&& is_char_boundary(bytes, spans[i].0 as int)
            &&& is_char_boundary(bytes, spans[i].1 as int)
        }
    &&& forall|i: int, j: int|
        0 <= i < j < spans.len() ==> (#[trigger] spans[i]).1 <= (#[trigger] spans[j]).0
}

/// The pattern of the texts that stand for removed secrets.
pub open spec fn marker_pattern() -> Seq<char> {
    "\\[CVC_REDACTED:v1:[a-z_]+:[0-9a-fA-F-]{16,}\\]"@
}

/// A character of the kind of a marker.
pub open spec fn kind_char(c: char) -> bool {
    ('a' <= c <= 'z') || c == '_'
}

/// A character of the identifier of a marker.
pub open spec fn id_char(c: char) -> bool {
    ('0' <= c <= '9') || ('a' <= c <= 'f') || ('A' <= c <= 'F') || c == '-'
}

/// The marker of this kind under this identifier.
pub open spec fn marker_of(kind: Seq<char>, id: Seq<char>) -> Seq<char> {
    "[CVC_REDACTED:v1:"@ + kind + ":"@ + id + "]"@
}

/// A text in the form of a marker.
pub open spec fn marker_form(m: Seq<char>) -> bool {
    exists|kind: Seq<char>, id: Seq<char>|
        {
            &&& m == #[trigger] marker_of(kind, id)
            &&& kind.len() > 0
            &&& id.len() >= 16
            &&& forall|i: int| 0 <= i < kind.len() ==> kind_char(#[trigger] kind[i])
            &&& forall|i: int| 0 <= i < id.len() ==> id_char(#[trigger] id[i])
        }
}

/// Every stretch of the text in the form of a marker is one of the matches.
pub open spec fn finds_markers(text: Seq<char>, spans: Seq<(usize, usize)>) -> bool {
    forall|a: int, b: int|
        0 <= a <= b <= text.len() && marker_form(#[trigger] text.subrange(a, b)) ==> covered(
            text,
            spans,
        ).contains(text.subrange(a, b))
}

/// Finds every match of a pattern; `None` where the pattern is no regular
/// expression.
///
/// Calls `regex::Regex::new` and `find_iter`. Whether the pattern is accepted
/// depends on the pattern alone and is named [`valid_pattern`]; the matches
/// depend on pattern and text alone and are named [`matched_spans`]. The crate
/// gives them in order, without overlap, at character boundaries. Of the pattern
/// of markers its syntax says what matches: every text of that form, and no two
/// of them can overlap, so each is among the matches.
#[verifier::external_body]
pub(crate) fn find_spans(pattern: &str, text: &str) -> (r: Option<Vec<(usize, usize)>>)
    ensures
        r is Some <==> valid_pattern(pattern@),
        r matches Some(v) ==> v@ == matched_spans(pattern@, text@),
        r matches Some(v) ==> ordered_spans(v@, encode_utf8(text@)),
        r matches Some(v) ==> (pattern@ == marker_pattern() ==> finds_markers(text@, v@)),
{
    let re = regex::Regex::new(pattern).ok()?;
    Some(re.find_iter(text).map(|m| (m.start(), m.end())).collect())
}

/// A byte string from `from` on, with the matches from position `k` on
/// replaced by the given texts.
pub open spec fn spliced(
    bytes: Seq<u8>,
    spans: Seq<(usize, usize)>,
    marks: Seq<Seq<char>>,
    k: int,
    from: int,
) -> Seq<u8>
    decreases spans.len() - k,
{
    if k < 0 || k >= spans.len() {
        bytes.subrange(from, bytes.len() as int)
    } else {
        bytes.subrange(from, spans[k].0 as int) + (encode_utf8(marks[k]) + spliced(
            bytes,
            spans,
            marks,
            k + 1,
            spans[k].1 as int,
        ))
    }
}

/// A text with its matches replaced by the given texts.
pub open spec fn redacted(
    text: Seq<char>,
    spans: Seq<(usize, usize)>,
    marks: Seq<Seq<char>>,
) -> Seq<char> {
    decode_utf8(spliced(encode_utf8(text), spans, marks, 0, 0))
}

/// A stretch between two character boundaries is valid.
proof fn lemma_valid_between(bytes: Seq<u8>, a: int, b: int)
    requires
        valid_utf8(bytes),
        0 <= a <= b <= bytes.len(),
        is_char_boundary(bytes, a),
        is_char_boundary(bytes, b),
    ensures
        valid_utf8(bytes.subrange(a, b)),
{
    let front = bytes.subrange(0, b);
    valid_utf8_split(bytes, b);
    assert(valid_utf8(front));
    if a < b {
        is_char_boundary_iff_not_is_continuation_byte(bytes, a);
        is_char_boundary_iff_not_is_continuation_byte(front, a);
        assert(front[a] == bytes[a]);
        valid_utf8_split(front, a);
        assert(front.subrange(a, front.len() as int) =~= bytes.subrange(a, b));
    } else {
        assert(bytes.subrange(a, b) =~= Seq::<u8>::empty());
    }
}

/// Replaces matches by texts.
pub fn replace_spans(text: &str, spans: &Vec<(usize, usize)>, marks: &Vec<String>) -> (r: String)
    requires
        ordered_spans(spans@, encode_utf8(text@)),
        marks@.len() == spans@.len(),
    ensures
        r@ == redacted(text@, spans@, marks.deep_view()),
{
    let bytes = text.as_bytes();
    let ghost ms = marks.deep_view();
    let mut out: Vec<u8> = Vec::new();
    let mut k: usize = 0;
    let mut from: usize = 0;
    proof {
        encode_utf8_valid_utf8(text@);
        is_char_boundary_start_end_of_seq(bytes@);
        assert(out@ + spliced(bytes@, spans@, ms, 0, 0) =~= spliced(bytes@, spans@, ms, 0, 0));
    }
    while k < spans.len()
        invariant
            k <= spans.len(),
            from <= bytes@.len(),
            bytes@ == encode_utf8(text@),
            ms == marks.deep_view(),
            marks@.len() == spans@.len(),
            valid_utf8(bytes@),
            is_char_boundary(bytes@, from as int),
            ordered_spans(spans@, bytes@),
            k < spans@.len() ==> from <= spans@[k as int].0,
            k > 0 ==> from == spans@[k - 1].1,
            valid_utf8(out@),
            out@ + spliced(bytes@, spans@, ms, k as int, from as int) == spliced(
                bytes@,
                spans@,
                ms,
                0,
                0,
            ),
        decreases spans.len() - k,
    {
        let (start, end) = spans[k];
        let ghost held = out@;
        assert(spans@[k as int] == (start, end));
        let piece = vstd::slice::slice_subrange(bytes, from, start);
        put_bytes(&mut out, piece);
        put_bytes(&mut out, marks[k].as_str().as_bytes());
        proof {
            lemma_valid_between(bytes@, from as int, start as int);
            encode_utf8_valid_utf8(ms[k as int]);
            assert(ms[k as int] == marks@[k as int]@);
            valid_utf8_concat(held, piece@);
            valid_utf8_concat(held + piece@, encode_utf8(ms[k as int]));
            let rest = spliced(bytes@, spans@, ms, k + 1, end as int);
            assert(out@ =~= held + piece@ + encode_utf8(ms[k as int]));
            assert(out@ + rest =~= held + (piece@ + (encode_utf8(ms[k as int]) + rest)));
            if k + 1 < spans@.len() {
                assert(spans@[k as int].1 <= spans@[k + 1].0);
            }
        }
        from = end;
        k += 1;
    }
    let ghost held = out@;
    let piece = vstd::slice::slice_subrange(bytes, from, bytes.len());
    put_bytes(&mut out, piece);
    proof {
        is_char_boundary_start_end_of_seq(bytes@);
        lemma_valid_between(bytes@, from as int, bytes@.len() as int);
        valid_utf8_concat(held, piece@);
        assert(out@ == spliced(bytes@, spans@, ms, 0, 0));
    }
    match string_from_bytes(out) {
        Some(s) => s,
        None => String::new(),
    }
}

/// The stretches of a text that matches cover.
pub open spec fn covered(text: Seq<char>, spans: Seq<(usize, usize)>) -> Seq<Seq<char>> {
    Seq::new(
        spans.len(),
        |i: int|
            decode_utf8(encode_utf8(text).subrange(spans[i].0 as int, spans[i].1 as int)),
    )
}

fn covered_texts(text: &str, spans: &Vec<(usize, usize)>) -> (r: Vec<String>)
    requires
        ordered_spans(spans@, encode_utf8(text@)),
    ensures
        r.deep_view() == covered(text@, spans@),
{
    let bytes = text.as_bytes();
    let mut out: Vec<String> = Vec::new();
    let mut k: usize = 0;
    proof {
        encode_utf8_valid_utf8(text@);
    }
    while k < spans.len()
        invariant
            k <= spans.len(),
            bytes@ == encode_utf8(text@),
            valid_utf8(bytes@),
            ordered_spans(spans@, bytes@),
            out.deep_view() == covered(text@, spans@).take(k as int),
        decreases spans.len() - k,
    {
        let (start, end) = spans[k];
        assert(spans@[k as int] == (start, end));
        let ghost held = out.deep_view();
        let s = text_between(bytes, start, end);
        out.push(s);
        assert(out.deep_view() =~= held.push(s@));
        k += 1;
        assert(out.deep_view() =~= covered(text@, spans@).take(k as int));
    }
    assert(covered(text@, spans@).take(spans@.len() as int) =~= covered(text@, spans@));
    out
}

/// The text that stands for a removed secret.
pub open spec fn marker_text(kind: Seq<char>, id: u128) -> Seq<char> {
    "[CVC_REDACTED:v1:"@ + kind + ":"@ + models::uuid_text(id) + "]"@
}

/// The text that stands for a removed secret, under a given identifier.
pub fn marker_with(kind: &str, id: u128) -> (r: String)
    ensures
        r@ == marker_text(kind@, id),
{
    let mut r = glue3("[CVC_REDACTED:v1:", kind, ":");
    r.append(format_uuid(id).as_str());
    r.append("]");
    r
}

/// Texts that stand for removed secrets.
pub open spec fn marker_texts(kind: Seq<char>, ids: Seq<u128>, n: nat) -> Seq<Seq<char>> {
    Seq::new(n, |i: int| marker_text(kind, ids[i]))
}

/// Redacts matches under given identifiers.
pub fn redact_spans(text: &str, spans: &Vec<(usize, usize)>, kind: &str, ids: &Vec<u128>) -> (r:
    String)
    requires
        ordered_spans(spans@, encode_utf8(text@)),
        ids@.len() == spans@.len(),
    ensures
        r@ == redacted(text@, spans@, marker_texts(kind@, ids@, spans@.len())),
{
    let ghost ms = marker_texts(kind@, ids@, spans@.len());
    let mut marks: Vec<String> = Vec::new();
    let mut k: usize = 0;
    while k < ids.len()
        invariant
            k <= ids.len(),
            ids@.len() == spans@.len(),
            ms == marker_texts(kind@, ids@, spans@.len()),
            marks.deep_view() == ms.take(k as int),
        decreases ids.len() - k,
    {
        let ghost held = marks.deep_view();
        let m = marker_with(kind, ids[k]);
        marks.push(m);
        assert(marks.deep_view() =~= held.push(m@));
        k += 1;
        assert(marks.deep_view() =~= ms.take(k as int));
    }
    assert(ms.take(ms.len() as int) =~= ms);
    assert(marks@.len() == marks.deep_view().len());
    replace_spans(text, spans, &marks)
}

/// Fresh identifiers.
fn fresh_ids(n: usize) -> (r: Vec<u128>)
    ensures
        r@.len() == n,
{
    let mut out: Vec<u128> = Vec::new();
    while out.len() < n
        invariant
            out@.len() <= n,
        decreases n - out@.len(),
    {
        out.push(random_uuid());
    }
    out
}

/// The kinds of secrets and the patterns that find them, in the order in which
/// they are applied.
pub open spec fn secret_pattern(k: int) -> (Seq<char>, Seq<char>) {
    if k == 0 {
        (
            "pem"@,
            "(?s)-----BEGIN [A-Z0-9 ]*PRIVATE KEY-----.*?-----END [A-Z0-9 ]*PRIVATE KEY-----"@,
        )
    } else if k == 1 {
        ("aws_access_key"@, "\\b(?:AKIA|ASIA)[A-Z0-9]{16}\\b"@)
    } else if k == 2 {
        ("jwt"@, "\\beyJ[a-zA-Z0-9_-]{8,}\\.[a-zA-Z0-9_-]{8,}\\.[a-zA-Z0-9_-]{8,}\\b"@)
    } else if k == 3 {
        (
            "github_token"@,
            "\\b(?:gh[pousr]_[A-Za-z0-9]{20,}|github_pat_[A-Za-z0-9_]{20,})\\b"@,
        )
    } else if k == 4 {
        ("openai_token"@, "\\bsk-(?:proj-)?[A-Za-z0-9_-]{20,}\\b"@)
    } else if k == 5 {
        ("slack_token"@, "\\bxox[baprs]-[A-Za-z0-9-]{10,}\\b"@)
    } else if k == 6 {
        ("google_token"@, "\\bya29\\.[A-Za-z0-9_-]{20,}\\b"@)
    } else if k == 7 {
        (
            "authorization"@,
            "(?i)\\b(?:authorization\\s*:\\s*|bearer\\s+)[A-Za-z0-9._~+/=-]{12,}"@,
        )
    } else if k == 8 {
        ("url_credentials"@, "(?i)\\b[a-z][a-z0-9+.-]*://[^\\s/:@]+:[^\\s@]+@"@)
    } else {
        (
            "secret_assignment"@,
            "(?i)\\b(?:aws_secret_access_key|api[_-]?key|secret|password|token)\\s*[:=]\\s*[^\\s'\"`]{8,}"@,
        )
    }
}

/// How many kinds of secrets there are.
pub const SECRET_PATTERNS: usize = 10;

fn secret_pattern_at(k: usize) -> (r: (&'static str, &'static str))
    ensures
        (r.0@, r.1@) == secret_pattern(k as int),
{
    if k == 0 {
        (
            "pem",
            "(?s)-----BEGIN [A-Z0-9 ]*PRIVATE KEY-----.*?-----END [A-Z0-9 ]*PRIVATE KEY-----",
        )
    } else if k == 1 {
        ("aws_access_key", "\\b(?:AKIA|ASIA)[A-Z0-9]{16}\\b")
    } else if k == 2 {
        ("jwt", "\\beyJ[a-zA-Z0-9_-]{8,}\\.[a-zA-Z0-9_-]{8,}\\.[a-zA-Z0-9_-]{8,}\\b")
    } else if k == 3 {
        ("github_token", "\\b(?:gh[pousr]_[A-Za-z0-9]{20,}|github_pat_[A-Za-z0-9_]{20,})\\b")
    } else if k == 4 {
        ("openai_token", "\\bsk-(?:proj-)?[A-Za-z0-9_-]{20,}\\b")
    } else if k == 5 {
        ("slack_token", "\\bxox[baprs]-[A-Za-z0-9-]{10,}\\b")
    } else if k == 6 {
        ("google_token", "\\bya29\\.[A-Za-z0-9_-]{20,}\\b")
    } else if k == 7 {
        (
            "authorization",
            "(?i)\\b(?:authorization\\s*:\\s*|bearer\\s+)[A-Za-z0-9._~+/=-]{12,}",
        )
    } else if k == 8 {
        ("url_credentials", "(?i)\\b[a-z][a-z0-9+.-]*://[^\\s/:@]+:[^\\s@]+@")
    } else {
        (
            "secret_assignment",
            "(?i)\\b(?:aws_secret_access_key|api[_-]?key|secret|password|token)\\s*[:=]\\s*[^\\s'\"`]{8,}",
        )
    }
}

/// The text that holds the place of an existing marker while secrets are removed.
pub open spec fn placeholder(i: nat) -> Seq<char> {
    "\0CVC"@ + digest::decimal(i) + "\0"@
}

fn placeholder_text(i: usize) -> (r: String)
    ensures
        r@ == placeholder(i as nat),
{
    glue3("\0CVC", decimal_text(i as u64).as_str(), "\0")
}

/// The placeholders of `n` markers.
pub open spec fn placeholders(n: nat) -> Seq<Seq<char>> {
    Seq::new(n, |i: int| placeholder(i as nat))
}

/// The stretches of a text before, between and behind the matches.
pub open spec fn between(text: Seq<char>, spans: Seq<(usize, usize)>) -> Seq<Seq<char>> {
    let bytes = encode_utf8(text);
    Seq::new(
        spans.len() + 1,
        |j: int|
            decode_utf8(
                bytes.subrange(
                    if j == 0 {
                        0
                    } else {
                        spans[j - 1].1 as int
                    },
                    if j == spans.len() {
                        bytes.len() as int
                    } else {
                        spans[j].0 as int
                    },
                ),
            ),
    )
}

/// The first `k` pieces of a text, with marks between them.
pub open spec fn interleaved(pieces: Seq<Seq<char>>, marks: Seq<Seq<char>>, k: nat) -> Seq<char>
    decreases k,
{
    if k == 0 {
        Seq::empty()
    } else if k == 1 {
        pieces[0]
    } else {
        interleaved(pieces, marks, (k - 1) as nat) + marks[k - 2] + pieces[k - 1]
    }
}

/// The byte position at which the piece `j` begins.
pub open spec fn piece_start(pieces: Seq<Seq<char>>, marks: Seq<Seq<char>>, j: nat) -> nat {
    if j == 0 {
        0
    } else {
        text::byte_len(interleaved(pieces, marks, j)) + text::byte_len(marks[j - 1])
    }
}

/// What the first `k` matches cover of the bytes from `start` to `end`, counted
/// from `start`. A match that reaches beyond is cut.
pub open spec fn cut_spans(spans: Seq<(usize, usize)>, start: int, end: int, k: nat) -> Seq<
    (usize, usize),
>
    decreases k,
{
    if k == 0 {
        Seq::empty()
    } else {
        let before = cut_spans(spans, start, end, (k - 1) as nat);
        let a = if spans[k - 1].0 < start {
            start
        } else {
            spans[k - 1].0 as int
        };
        let b = if spans[k - 1].1 > end {
            end
        } else {
            spans[k - 1].1 as int
        };
        if a < b {
            before.push(((a - start) as usize, (b - start) as usize))
        } else {
            before
        }
    }
}

/// The matches in the piece `j`.
pub open spec fn piece_spans(pieces: Seq<Seq<char>>, marks: Seq<Seq<char>>, spans: Seq<(usize, usize)>, j: int) -> Seq<
    (usize, usize),
> {
    let start = piece_start(pieces, marks, j as nat);
    cut_spans(spans, start as int, (start + text::byte_len(pieces[j])) as int, spans.len())
}

/// The pieces with what the matches cover of each replaced by markers of a kind.
pub open spec fn pieces_redacted(
    pieces: Seq<Seq<char>>,
    marks: Seq<Seq<char>>,
    spans: Seq<(usize, usize)>,
    kind: Seq<char>,
    ids: Seq<Seq<u128>>,
) -> Seq<Seq<char>> {
    Seq::new(
        pieces.len(),
        |j: int|
            {
                let cut = piece_spans(pieces, marks, spans, j);
                redacted(pieces[j], cut, marker_texts(kind, ids[j], cut.len()))
            },
    )
}

/// The pieces of a text with placeholders for the markers between them.
pub open spec fn staged(pieces: Seq<Seq<char>>) -> Seq<char> {
    interleaved(pieces, placeholders((pieces.len() - 1) as nat), pieces.len())
}

/// Removing the secrets of the kind `k` from the pieces of a text; `ids` holds
/// the identifiers that the markers of each piece get. Secrets are sought in the
/// text with placeholders, and matches are cut around these.
pub open spec fn secret_step(pieces: Seq<Seq<char>>, k: int, ids: Seq<Seq<u128>>) -> Result<
    Seq<Seq<char>>,
    PrivacyError,
> {
    let (kind, pattern) = secret_pattern(k);
    let spans = matched_spans(pattern, staged(pieces));
    if !valid_pattern(pattern) {
        Err(PrivacyError::Policy(PolicyFault::BuiltinPattern))
    } else if spans.len() > MAX_MATCHES {
        Err(PrivacyError::Policy(PolicyFault::TooManySecrets))
    } else {
        Ok(pieces_redacted(pieces, placeholders((pieces.len() - 1) as nat), spans, kind, ids))
    }
}

/// Removing the secrets of the first `k` kinds; `choice` holds the identifiers
/// that the markers of each kind get in each piece.
pub open spec fn secrets_removed(
    pieces: Seq<Seq<char>>,
    choice: Seq<Seq<Seq<u128>>>,
    k: nat,
) -> Result<Seq<Seq<char>>, PrivacyError>
    decreases k,
{
    if k == 0 {
        Ok(pieces)
    } else {
        match secrets_removed(pieces, choice, (k - 1) as nat) {
            Err(e) => Err(e),
            Ok(t) => secret_step(t, k - 1, choice[k - 1]),
        }
    }
}

/// What scrubbing makes of a text, given the identifiers of the new markers.
/// Markers that stand in the text already are kept, in their places.
pub open spec fn scrub_outcome(text: Seq<char>, choice: Seq<Seq<Seq<u128>>>) -> Result<
    Seq<char>,
    PrivacyError,
> {
    let spans = matched_spans(marker_pattern(), text);
    if text::byte_len(text) > MAX_TEXT {
        Err(PrivacyError::TooLarge)
    } else if !valid_pattern(marker_pattern()) {
        Err(PrivacyError::Policy(PolicyFault::BuiltinPattern))
    } else {
        match secrets_removed(between(text, spans), choice, SECRET_PATTERNS as nat) {
            Err(e) => Err(e),
            Ok(p) => Ok(interleaved(p, covered(text, spans), p.len())),
        }
    }
}

/// A possible outcome of scrubbing.
pub open spec fn may_scrub(text: Seq<char>, r: Result<Seq<char>, PrivacyError>) -> bool {
    exists|choice: Seq<Seq<Seq<u128>>>| #[trigger] scrub_outcome(text, choice) == r
}

/// The contents of a result that is a text.
pub open spec fn result_text(r: Result<String, PrivacyError>) -> Result<Seq<char>, PrivacyError> {
    match r {
        Ok(s) => Ok(s@),
        Err(e) => Err(e),
    }
}

/// A piece stands at its place among the bytes of the first `k` pieces.
proof fn lemma_piece_within(pieces: Seq<Seq<char>>, marks: Seq<Seq<char>>, k: nat, j: nat)
    requires
        j < k <= pieces.len(),
    ensures
        ({
            let all = encode_utf8(interleaved(pieces, marks, k));
            let start = piece_start(pieces, marks, j);
            let end = start + text::byte_len(pieces[j as int]);
            &&& end <= all.len()
            &&& all.subrange(start as int, end as int) == encode_utf8(pieces[j as int])
            &&& j == k - 1 ==> end == all.len()
        }),
    decreases k,
{
    let all = encode_utf8(interleaved(pieces, marks, k));
    let start = piece_start(pieces, marks, j);
    let end = start + text::byte_len(pieces[j as int]);
    if k == 1 {
        assert(all.subrange(0, all.len() as int) =~= all);
    } else {
        let head = interleaved(pieces, marks, (k - 1) as nat);
        let mark = marks[k - 2];
        text::lemma_encode_joined(head, mark);
        text::lemma_encode_joined(head + mark, pieces[k - 1]);
        if j == k - 1 {
            assert(all.subrange(start as int, end as int) =~= encode_utf8(pieces[j as int]));
        } else {
            lemma_piece_within(pieces, marks, (k - 1) as nat, j);
            assert(all.subrange(start as int, end as int) =~= encode_utf8(head).subrange(
                start as int,
                end as int,
            ));
        }
    }
}

/// Matches cut to a stretch are matches in that stretch.
proof fn lemma_cut_ordered(
    spans: Seq<(usize, usize)>,
    all: Seq<u8>,
    piece: Seq<u8>,
    start: int,
    end: int,
    k: nat,
)
    requires
        valid_utf8(all),
        valid_utf8(piece),
        ordered_spans(spans, all),
        0 <= start <= end <= all.len() <= usize::MAX,
        all.subrange(start, end) == piece,
        k <= spans.len(),
    ensures
        ordered_spans(cut_spans(spans, start, end, k), piece),
        cut_spans(spans, start, end, k).len() <= k,
        forall|i: int|
            0 <= i < cut_spans(spans, start, end, k).len() ==> (#[trigger] cut_spans(
                spans,
                start,
                end,
                k,
            )[i]).1 + start <= spans[k - 1].1,
    decreases k,
{
    let cut = cut_spans(spans, start, end, k);
    if k > 0 {
        let before = cut_spans(spans, start, end, (k - 1) as nat);
        lemma_cut_ordered(spans, all, piece, start, end, (k - 1) as nat);
        let s = spans[k - 1];
        if k > 1 {
            assert(spans[k - 2].1 <= s.0);
        }
        let a = if s.0 < start {
            start
        } else {
            s.0 as int
        };
        let b = if s.1 > end {
            end
        } else {
            s.1 as int
        };
        if a < b {
            is_char_boundary_start_end_of_seq(piece);
            if a > start {
                is_char_boundary_iff_not_is_continuation_byte(all, a);
                is_char_boundary_iff_not_is_continuation_byte(piece, a - start);
                assert(piece[a - start] == all[a]);
            }
            if b < end {
                is_char_boundary_iff_not_is_continuation_byte(all, b);
                is_char_boundary_iff_not_is_continuation_byte(piece, b - start);
                assert(piece[b - start] == all[b]);
            }
            assert(cut == before.push(((a - start) as usize, (b - start) as usize)));
            assert forall|i: int, j: int| 0 <= i < j < cut.len() implies (#[trigger] cut[i]).1 <= (
            #[trigger] cut[j]).0 by {
                if j == cut.len() - 1 {
                    assert(before[i].1 + start <= spans[k - 2].1);
                }
            }
        }
    }
}

fn interleave(pieces: &Vec<String>, marks: &Vec<String>) -> (r: String)
    requires
        pieces@.len() == marks@.len() + 1,
    ensures
        r@ == interleaved(pieces.deep_view(), marks.deep_view(), pieces@.len()),
{
    let ghost ps = pieces.deep_view();
    let ghost ms = marks.deep_view();
    assert(ps[0] == pieces@[0]@);
    let mut out = pieces[0].as_str().to_owned();
    let mut k: usize = 1;
    while k < pieces.len()
        invariant
            1 <= k <= pieces.len(),
            pieces@.len() == marks@.len() + 1,
            ps == pieces.deep_view(),
            ms == marks.deep_view(),
            out@ == interleaved(ps, ms, k as nat),
        decreases pieces.len() - k,
    {
        assert(ps[k as int] == pieces@[k as int]@);
        assert(ms[k - 1] == marks@[k - 1]@);
        out = glue3(out.as_str(), marks[k - 1].as_str(), pieces[k].as_str());
        k += 1;
    }
    out
}

fn text_between(bytes: &[u8], start: usize, end: usize) -> (r: String)
    requires
        valid_utf8(bytes@),
        start <= end <= bytes@.len(),
        is_char_boundary(bytes@, start as int),
        is_char_boundary(bytes@, end as int),
    ensures
        r@ == decode_utf8(bytes@.subrange(start as int, end as int)),
{
    let mut piece: Vec<u8> = Vec::new();
    put_bytes(&mut piece, vstd::slice::slice_subrange(bytes, start, end));
    proof {
        lemma_valid_between(bytes@, start as int, end as int);
        assert(piece@ =~= bytes@.subrange(start as int, end as int));
    }
    match string_from_bytes(piece) {
        Some(s) => s,
        None => String::new(),
    }
}

fn texts_between(text: &str, spans: &Vec<(usize, usize)>) -> (r: Vec<String>)
    requires
        ordered_spans(spans@, encode_utf8(text@)),
    ensures
        r.deep_view() == between(text@, spans@),
{
    let bytes = text.as_bytes();
    let mut out: Vec<String> = Vec::new();
    let mut start: usize = 0;
    let mut k: usize = 0;
    proof {
        encode_utf8_valid_utf8(text@);
        is_char_boundary_start_end_of_seq(bytes@);
    }
    while k < spans.len()
        invariant
            k <= spans.len(),
            bytes@ == encode_utf8(text@),
            valid_utf8(bytes@),
            start <= bytes@.len(),
            is_char_boundary(bytes@, start as int),
            start == if k == 0 {
                0
            } else {
                spans@[k - 1].1
            },
            ordered_spans(spans@, bytes@),
            out.deep_view() == between(text@, spans@).take(k as int),
        decreases spans.len() - k,
    {
        let (at, end) = spans[k];
        assert(spans@[k as int] == (at, end));
        let ghost held = out.deep_view();
        proof {
            if k > 0 {
                assert(spans@[k - 1].1 <= spans@[k as int].0);
            }
        }
        let s = text_between(bytes, start, at);
        out.push(s);
        assert(out.deep_view() =~= held.push(s@));
        start = end;
        k += 1;
        assert(out.deep_view() =~= between(text@, spans@).take(k as int));
    }
    let ghost held = out.deep_view();
    proof {
        is_char_boundary_start_end_of_seq(bytes@);
    }
    let s = text_between(bytes, start, bytes.len());
    out.push(s);
    assert(out.deep_view() =~= held.push(s@));
    assert(out.deep_view() =~= between(text@, spans@));
    out
}

fn cut_to(spans: &Vec<(usize, usize)>, start: usize, end: usize) -> (r: Vec<(usize, usize)>)
    requires
        start <= end,
    ensures
        r@ == cut_spans(spans@, start as int, end as int, spans@.len()),
{
    let mut out: Vec<(usize, usize)> = Vec::new();
    let mut k: usize = 0;
    while k < spans.len()
        invariant
            k <= spans.len(),
            start <= end,
            out@ == cut_spans(spans@, start as int, end as int, k as nat),
        decreases spans.len() - k,
    {
        let (s, e) = spans[k];
        assert(spans@[k as int] == (s, e));
        let a: usize = if s < start {
            start
        } else {
            s
        };
        let b: usize = if e > end {
            end
        } else {
            e
        };
        if a < b {
            out.push((a - start, b - start));
        }
        k += 1;
    }
    out
}

/// Redacts what matches cover of the pieces of a text. Gives the identifiers of
/// the new markers besides.
fn redact_pieces(
    pieces: &Vec<String>,
    marks: &Vec<String>,
    spans: &Vec<(usize, usize)>,
    kind: &str,
    whole: &str,
) -> (r: (Vec<String>, Vec<Vec<u128>>))
    requires
        pieces@.len() == marks@.len() + 1,
        whole@ == interleaved(pieces.deep_view(), marks.deep_view(), pieces@.len()),
        ordered_spans(spans@, encode_utf8(whole@)),
    ensures
        r.1@.len() == pieces@.len(),
        r.0.deep_view() == pieces_redacted(
            pieces.deep_view(),
            marks.deep_view(),
            spans@,
            kind@,
            r.1.deep_view(),
        ),
{
    let ghost ps = pieces.deep_view();
    let ghost ms = marks.deep_view();
    let total = bytes_len(whole);
    let mut out: Vec<String> = Vec::new();
    let mut ids: Vec<Vec<u128>> = Vec::new();
    let mut start: usize = 0;
    let mut j: usize = 0;
    proof {
        encode_utf8_valid_utf8(whole@);
    }
    while j < pieces.len()
        invariant
            j <= pieces.len(),
            pieces@.len() == marks@.len() + 1,
            ps == pieces.deep_view(),
            ms == marks.deep_view(),
            whole@ == interleaved(ps, ms, ps.len()),
            total == text::byte_len(whole@),
            valid_utf8(encode_utf8(whole@)),
            ordered_spans(spans@, encode_utf8(whole@)),
            out@.len() == j,
            ids@.len() == j,
            j < pieces.len() ==> start == piece_start(ps, ms, j as nat),
            forall|i: int|
                0 <= i < j ==> (#[trigger] out@[i])@ == pieces_redacted(
                    ps,
                    ms,
                    spans@,
                    kind@,
                    ids.deep_view(),
                )[i],
        decreases pieces.len() - j,
    {
        let ghost held = ids.deep_view();
        let ghost texts = out@;
        assert(ps[j as int] == pieces@[j as int]@);
        proof {
            lemma_piece_within(ps, ms, ps.len(), j as nat);
            encode_utf8_valid_utf8(ps[j as int]);
        }
        let end: usize = start + bytes_len(pieces[j].as_str());
        let cut = cut_to(spans, start, end);
        proof {
            lemma_cut_ordered(
                spans@,
                encode_utf8(whole@),
                encode_utf8(ps[j as int]),
                start as int,
                end as int,
                spans@.len(),
            );
        }
        let fresh = fresh_ids(cut.len());
        let done = redact_spans(pieces[j].as_str(), &cut, kind, &fresh);
        let ghost new_ids = fresh@;
        assert(fresh.deep_view() =~= new_ids);
        out.push(done);
        ids.push(fresh);
        proof {
            assert(ids.deep_view() =~= held.push(new_ids));
            assert(cut@ == piece_spans(ps, ms, spans@, j as int));
            let after = pieces_redacted(ps, ms, spans@, kind@, ids.deep_view());
            let before = pieces_redacted(ps, ms, spans@, kind@, held);
            assert forall|i: int| 0 <= i < j + 1 implies (#[trigger] out@[i])@ == after[i] by {
                if i < j {
                    assert(texts[i] == out@[i]);
                    assert(ids.deep_view()[i] == held[i]);
                    assert(before[i] == after[i]);
                }
            }
        }
        if j + 1 < pieces.len() {
            assert(ms[j as int] == marks@[j as int]@);
            proof {
                lemma_piece_within(ps, ms, (j + 1) as nat, j as nat);
                lemma_piece_within(ps, ms, ps.len(), (j + 1) as nat);
            }
            start = end + bytes_len(marks[j].as_str());
        }
        j += 1;
    }
    assert(out.deep_view() =~= pieces_redacted(ps, ms, spans@, kind@, ids.deep_view()));
    (out, ids)
}

proof fn lemma_secrets_prefix(
    pieces: Seq<Seq<char>>,
    a: Seq<Seq<Seq<u128>>>,
    b: Seq<Seq<Seq<u128>>>,
    k: nat,
)
    requires
        k <= a.len(),
        k <= b.len(),
        forall|i: int| 0 <= i < k ==> a[i] == b[i],
    ensures
        secrets_removed(pieces, a, k) == secrets_removed(pieces, b, k),
    decreases k,
{
    if k > 0 {
        lemma_secrets_prefix(pieces, a, b, (k - 1) as nat);
    }
}

fn placeholder_texts(n: usize) -> (r: Vec<String>)
    ensures
        r@.len() == n,
        r.deep_view() == placeholders(n as nat),
{
    let ghost ps = placeholders(n as nat);
    let mut places: Vec<String> = Vec::new();
    while places.len() < n
        invariant
            places@.len() <= n,
            ps == placeholders(n as nat),
            places.deep_view() == ps.take(places@.len() as int),
        decreases n - places@.len(),
    {
        let ghost held = places.deep_view();
        let p = placeholder_text(places.len());
        places.push(p);
        assert(places.deep_view() =~= held.push(p@));
        assert(places.deep_view() =~= ps.take(places@.len() as int));
    }
    assert(ps.take(ps.len() as int) =~= ps);
    places
}

/// Bounded high-confidence replacement. Existing markers are deliberately
/// preserved: every stretch of the input in the form of a marker stands in the
/// result.
pub fn scrub(input: &str) -> (r: Result<String, PrivacyError>)
    ensures
        may_scrub(input@, result_text(r)),
        text::byte_len(input@) > MAX_TEXT <==> r == Err::<String, PrivacyError>(PrivacyError::TooLarge),
        r matches Ok(out) ==> keeps_markers(input@, out@),
{
    let ghost mut choice: Seq<Seq<Seq<u128>>> = Seq::empty();
    if bytes_len(input) > MAX_TEXT {
        assert(scrub_outcome(input@, choice) == Err::<Seq<char>, PrivacyError>(
            PrivacyError::TooLarge,
        ));
        return Err(PrivacyError::TooLarge);
    }
    let spans = match find_spans("\\[CVC_REDACTED:v1:[a-z_]+:[0-9a-fA-F-]{16,}\\]", input) {
        Some(v) => v,
        None => {
            assert(scrub_outcome(input@, choice) == Err::<Seq<char>, PrivacyError>(
                PrivacyError::Policy(PolicyFault::BuiltinPattern),
            ));
            return Err(PrivacyError::Policy(PolicyFault::BuiltinPattern));
        },
    };
    let protected = covered_texts(input, &spans);
    let places = placeholder_texts(spans.len());
    let mut pieces = texts_between(input, &spans);
    let ghost first = pieces.deep_view();
    let mut k: usize = 0;
    assert(pieces.deep_view().len() == pieces@.len());
    while k < SECRET_PATTERNS
        invariant
            k <= SECRET_PATTERNS,
            choice.len() == k,
            text::byte_len(input@) <= MAX_TEXT,
            valid_pattern(marker_pattern()),
            spans@ == matched_spans(marker_pattern(), input@),
            pieces@.len() == spans@.len() + 1,
            places@.len() == spans@.len(),
            places.deep_view() == placeholders(spans@.len()),
            first == between(input@, spans@),
            secrets_removed(first, choice, k as nat) == Ok::<Seq<Seq<char>>, PrivacyError>(
                pieces.deep_view(),
            ),
        decreases SECRET_PATTERNS - k,
    {
        let (kind, pattern) = secret_pattern_at(k);
        let whole = interleave(&pieces, &places);
        let ghost held = pieces.deep_view();
        assert(held.len() == pieces@.len());
        assert(whole@ == staged(held));
        let ghost mut ids: Seq<Seq<u128>> = Seq::empty();
        let step: Result<Vec<String>, PrivacyError> = match find_spans(pattern, whole.as_str()) {
            None => Err(PrivacyError::Policy(PolicyFault::BuiltinPattern)),
            Some(found) => {
                if found.len() > MAX_MATCHES {
                    Err(PrivacyError::Policy(PolicyFault::TooManySecrets))
                } else {
                    let (done, fresh) = redact_pieces(
                        &pieces,
                        &places,
                        &found,
                        kind,
                        whole.as_str(),
                    );
                    proof {
                        ids = fresh.deep_view();
                    }
                    Ok(done)
                }
            },
        };
        let ghost longer = choice.push(ids);
        proof {
            lemma_secrets_prefix(first, choice, longer, k as nat);
            assert(longer[k as int] == ids);
            assert(secrets_removed(first, longer, (k + 1) as nat) == secret_step(
                held,
                k as int,
                ids,
            ));
        }
        match step {
            Err(e) => {
                proof {
                    lemma_secrets_failed(first, longer, (k + 1) as nat, SECRET_PATTERNS as nat);
                    assert(scrub_outcome(input@, longer) == Err::<Seq<char>, PrivacyError>(e));
                }
                return Err(e);
            },
            Ok(t) => {
                assert(t.deep_view().len() == t@.len());
                pieces = t;
            },
        }
        proof {
            choice = longer;
        }
        k += 1;
    }
    assert(protected.deep_view().len() == protected@.len());
    assert(pieces.deep_view().len() == pieces@.len());
    let out = interleave(&pieces, &protected);
    proof {
        assert(scrub_outcome(input@, choice) == Ok::<Seq<char>, PrivacyError>(out@));
        assert forall|a: int, b: int|
            0 <= a <= b <= input@.len() && marker_form(
                #[trigger] input@.subrange(a, b),
            ) implies text::first_at(out@, input@.subrange(a, b), 0) is Some by {
            let m = input@.subrange(a, b);
            let marks = covered(input@, spans@);
            assert(marks.contains(m));
            let i = choose|i: int| 0 <= i < marks.len() && marks[i] == m;
            lemma_mark_stands(pieces.deep_view(), marks, pieces@.len(), i);
        }
    }
    Ok(out)
}

/// Every stretch of the text in the form of a marker stands in the result.
pub open spec fn keeps_markers(text: Seq<char>, out: Seq<char>) -> bool {
    forall|a: int, b: int|
        0 <= a <= b <= text.len() && marker_form(#[trigger] text.subrange(a, b))
            ==> text::first_at(out, text.subrange(a, b), 0) is Some
}

/// A mark between two pieces stands in the text that they make.
proof fn lemma_mark_stands(pieces: Seq<Seq<char>>, marks: Seq<Seq<char>>, k: nat, i: int)
    requires
        0 <= i,
        i + 2 <= k <= pieces.len(),
    ensures
        text::first_at(interleaved(pieces, marks, k), marks[i], 0) is Some,
{
    let at = lemma_mark_at(pieces, marks, k, i);
    let whole = interleaved(pieces, marks, k);
    if marks[i].len() > 0 {
        text::lemma_found(whole, marks[i], 0, at);
    } else {
        assert(whole.subrange(0, 0) =~= marks[i]);
    }
}

proof fn lemma_mark_at(pieces: Seq<Seq<char>>, marks: Seq<Seq<char>>, k: nat, i: int) -> (at: int)
    requires
        0 <= i,
        i + 2 <= k <= pieces.len(),
    ensures
        0 <= at,
        at + marks[i].len() <= interleaved(pieces, marks, k).len(),
        interleaved(pieces, marks, k).subrange(at, at + marks[i].len()) == marks[i],
    decreases k,
{
    let whole = interleaved(pieces, marks, k);
    let head = interleaved(pieces, marks, (k - 1) as nat);
    if i == k - 2 {
        let at = head.len() as int;
        assert(whole.subrange(at, at + marks[i].len()) =~= marks[i]);
        at
    } else {
        let at = lemma_mark_at(pieces, marks, (k - 1) as nat, i);
        assert(whole.subrange(at, at + marks[i].len()) =~= head.subrange(at, at + marks[i].len()));
        at
    }
}

proof fn lemma_pieces_stay(pieces: Seq<Seq<char>>, choice: Seq<Seq<Seq<u128>>>, k: nat)
    ensures
        secrets_removed(pieces, choice, k) matches Ok(p) ==> p.len() == pieces.len(),
    decreases k,
{
    if k > 0 {
        lemma_pieces_stay(pieces, choice, (k - 1) as nat);
    }
}

/// Scrubbing keeps every marker that it finds in a text.
pub proof fn law_markers_are_kept(text: Seq<char>, out: Seq<char>, i: int)
    requires
        may_scrub(text, Ok::<Seq<char>, PrivacyError>(out)),
        0 <= i < matched_spans(marker_pattern(), text).len(),
    ensures
        text::first_at(out, covered(text, matched_spans(marker_pattern(), text))[i], 0) is Some,
{
    let choice = choose|choice: Seq<Seq<Seq<u128>>>| #[trigger]
        scrub_outcome(text, choice) == Ok::<Seq<char>, PrivacyError>(out);
    let spans = matched_spans(marker_pattern(), text);
    let first = between(text, spans);
    lemma_pieces_stay(first, choice, SECRET_PATTERNS as nat);
    let p = secrets_removed(first, choice, SECRET_PATTERNS as nat)->Ok_0;
    lemma_mark_stands(p, covered(text, spans), p.len(), i);
}

proof fn lemma_secrets_failed(
    pieces: Seq<Seq<char>>,
    choice: Seq<Seq<Seq<u128>>>,
    k: nat,
    n: nat,
)
    requires
        k <= n,
        secrets_removed(pieces, choice, k) is Err,
    ensures
        secrets_removed(pieces, choice, n) == secrets_removed(pieces, choice, k),
    decreases n - k,
{
    if k < n {
        lemma_secrets_failed(pieces, choice, k, (n - 1) as nat);
    }
}

/// A text in which nothing is to be removed: no secret is found beside the
/// markers that stand in it.
pub open spec fn is_clean(text: Seq<char>) -> bool {
    let marks = matched_spans(marker_pattern(), text);
    &&& text::byte_len(text) <= MAX_TEXT
    &&& valid_pattern(marker_pattern())
    &&& ordered_spans(marks, encode_utf8(text))
    &&& forall|k: int|
        0 <= k < SECRET_PATTERNS ==> valid_pattern((#[trigger] secret_pattern(k)).1)
            && matched_spans(secret_pattern(k).1, staged(between(text, marks))).len() == 0
}

pub proof fn lemma_nothing_redacted(text: Seq<char>, marks: Seq<Seq<char>>)
    ensures
        redacted(text, Seq::empty(), marks) == text,
{
    broadcast use encode_utf8_decode_utf8;

    let b = encode_utf8(text);
    assert(b.subrange(0, b.len() as int) =~= b);
}

proof fn lemma_clean_steps(text: Seq<char>, choice: Seq<Seq<Seq<u128>>>, k: nat)
    requires
        is_clean(text),
        k <= SECRET_PATTERNS,
    ensures
        ({
            let pieces = between(text, matched_spans(marker_pattern(), text));
            secrets_removed(pieces, choice, k) == Ok::<Seq<Seq<char>>, PrivacyError>(pieces)
        }),
    decreases k,
{
    if k > 0 {
        let pieces = between(text, matched_spans(marker_pattern(), text));
        lemma_clean_steps(text, choice, (k - 1) as nat);
        let (kind, pattern) = secret_pattern(k - 1);
        assert(valid_pattern(secret_pattern(k - 1).1));
        let spans = matched_spans(pattern, staged(pieces));
        assert(spans.len() == 0);
        let places = placeholders((pieces.len() - 1) as nat);
        let done = pieces_redacted(pieces, places, spans, kind, choice[k - 1]);
        assert forall|j: int| 0 <= j < pieces.len() implies done[j] == pieces[j] by {
            let cut = piece_spans(pieces, places, spans, j);
            assert(cut =~= Seq::empty());
            lemma_nothing_redacted(pieces[j], marker_texts(kind, choice[k - 1][j], cut.len()));
        }
        assert(done =~= pieces);
    }
}

/// The pieces between matches and what the matches cover make the text.
proof fn lemma_pieces_make_text(text: Seq<char>, spans: Seq<(usize, usize)>, k: nat)
    requires
        ordered_spans(spans, encode_utf8(text)),
        1 <= k <= spans.len() + 1,
    ensures
        ({
            let bytes = encode_utf8(text);
            let end = if k == spans.len() + 1 {
                bytes.len() as int
            } else {
                spans[k - 1].0 as int
            };
            interleaved(between(text, spans), covered(text, spans), k) == decode_utf8(
                bytes.subrange(0, end),
            )
        }),
    decreases k,
{
    let bytes = encode_utf8(text);
    encode_utf8_valid_utf8(text);
    is_char_boundary_start_end_of_seq(bytes);
    let pieces = between(text, spans);
    let marks = covered(text, spans);
    let end = if k == spans.len() + 1 {
        bytes.len() as int
    } else {
        spans[k - 1].0 as int
    };
    if k > 1 {
        let s = spans[k - 2];
        if k - 1 < spans.len() {
            assert(s.1 <= spans[k - 1].0);
        }
        lemma_pieces_make_text(text, spans, (k - 1) as nat);
        lemma_decode_cut(bytes, s.0 as int, s.1 as int);
        lemma_decode_cut(bytes, s.1 as int, end);
        assert(interleaved(pieces, marks, k) == decode_utf8(bytes.subrange(0, s.0 as int))
            + decode_utf8(bytes.subrange(s.0 as int, s.1 as int)) + decode_utf8(
            bytes.subrange(s.1 as int, end),
        ));
    }
}

/// Bytes up to `b` decode to those up to `a` and those from there on.
proof fn lemma_decode_cut(bytes: Seq<u8>, a: int, b: int)
    requires
        valid_utf8(bytes),
        0 <= a <= b <= bytes.len(),
        is_char_boundary(bytes, a),
        is_char_boundary(bytes, b),
    ensures
        decode_utf8(bytes.subrange(0, b)) == decode_utf8(bytes.subrange(0, a)) + decode_utf8(
            bytes.subrange(a, b),
        ),
{
    let front = bytes.subrange(0, b);
    valid_utf8_split(bytes, b);
    assert(valid_utf8(front));
    if a < b {
        is_char_boundary_iff_not_is_continuation_byte(bytes, a);
        is_char_boundary_iff_not_is_continuation_byte(front, a);
        assert(front[a] == bytes[a]);
    } else {
        is_char_boundary_start_end_of_seq(front);
    }
    decode_utf8_split(front, a);
    assert(front.subrange(0, a) =~= bytes.subrange(0, a));
    assert(front.subrange(a, b) =~= bytes.subrange(a, b));
}

/// Scrubbing leaves a clean text as it is, markers and all.
pub proof fn law_clean_text_unchanged(text: Seq<char>, r: Result<Seq<char>, PrivacyError>)
    requires
        is_clean(text),
        may_scrub(text, r),
    ensures
        r == Ok::<Seq<char>, PrivacyError>(text),
{
    let choice = choose|choice: Seq<Seq<Seq<u128>>>| #[trigger] scrub_outcome(text, choice) == r;
    let spans = matched_spans(marker_pattern(), text);
    lemma_clean_steps(text, choice, SECRET_PATTERNS as nat);
    lemma_pieces_make_text(text, spans, spans.len() + 1);
    encode_utf8_decode_utf8(text);
    let bytes = encode_utf8(text);
    assert(bytes.subrange(0, bytes.len() as int) =~= bytes);
}

/// A second scrub leaves what the first one made as it is, wherever that is clean.
/// It need not be: a marker can join what stands around it into a new secret, and
/// the second scrub then removes that.
pub proof fn law_second_scrub_changes_nothing(
    text: Seq<char>,
    out: Seq<char>,
    again: Result<Seq<char>, PrivacyError>,
)
    requires
        may_scrub(text, Ok(out)),
        is_clean(out),
        may_scrub(out, again),
    ensures
        again == Ok::<Seq<char>, PrivacyError>(out),
{
    law_clean_text_unchanged(out, again);
}

/// A name whose value is a credential, once case and punctuation are ignored.
pub open spec fn credential_name(s: Seq<char>) -> bool {
    ||| s == "awssecretaccesskey"@
    ||| s == "apikey"@
    ||| s == "clientsecret"@
    ||| s == "accesstoken"@
    ||| s == "refreshtoken"@
    ||| s == "privatekey"@
    ||| s == "secret"@
    ||| s == "password"@
    ||| s == "passwd"@
    ||| s == "pwd"@
    ||| s == "token"@
    ||| s == "authorization"@
}

/// An ASCII letter or digit.
pub open spec fn is_alphanumeric(c: char) -> bool {
    ('a' <= c <= 'z') || ('A' <= c <= 'Z') || ('0' <= c <= '9')
}

/// The lower-case form of an ASCII character.
pub open spec fn lower_char(c: char) -> char {
    if 'A' <= c <= 'Z' {
        (c as int + 32) as char
    } else {
        c
    }
}

/// The ASCII letters and digits of a text, in lower case.
pub open spec fn normalized_name(s: Seq<char>) -> Seq<char>
    decreases s.len(),
{
    if s.len() == 0 {
        Seq::empty()
    } else if is_alphanumeric(s.last()) {
        normalized_name(s.drop_last()).push(lower_char(s.last()))
    } else {
        normalized_name(s.drop_last())
    }
}

/// Whether the value under a name is a credential.
pub fn is_credential_key(key: &str) -> (r: bool)
    ensures
        r == credential_name(normalized_name(key@)),
{
    let chars = chars_of(key);
    let mut out = String::new();
    let mut i: usize = 0;
    assert(normalized_name(key@.take(0)) =~= Seq::<char>::empty());
    while i < chars.len()
        invariant
            i <= chars.len(),
            chars@ == key@,
            out@ == normalized_name(key@.take(i as int)),
        decreases chars.len() - i,
    {
        let c = chars[i];
        proof {
            assert(key@.take(i + 1).drop_last() =~= key@.take(i as int));
            assert(key@.take(i + 1).last() == c);
        }
        if c >= 'A' && c <= 'Z' {
            let low = ((c as u8) + 32) as char;
            assert(low == lower_char(c));
            push_char(&mut out, low);
        } else if (c >= 'a' && c <= 'z') || (c >= '0' && c <= '9') {
            push_char(&mut out, c);
        }
        i += 1;
    }
    assert(key@.take(key@.len() as int) =~= key@);
    let n = out.as_str();
    text_equal(n, "awssecretaccesskey") || text_equal(n, "apikey") || text_equal(n, "clientsecret")
        || text_equal(n, "accesstoken") || text_equal(n, "refreshtoken") || text_equal(
        n,
        "privatekey",
    ) || text_equal(n, "secret") || text_equal(n, "password") || text_equal(n, "passwd")
        || text_equal(n, "pwd") || text_equal(n, "token") || text_equal(n, "authorization")
}

/// A text that is a marker and nothing else.
pub open spec fn is_marker(s: Seq<char>) -> bool {
    let pattern = "^\\[CVC_REDACTED:v1:[a-z_]+:[0-9a-fA-F-]{16,}\\]$"@;
    valid_pattern(pattern) && matched_spans(pattern, s).len() > 0
}

/// Whether a text is a marker and nothing else.
pub fn is_redaction_marker(value: &str) -> (r: bool)
    ensures
        r == is_marker(value@),
{
    match find_spans("^\\[CVC_REDACTED:v1:[a-z_]+:[0-9a-fA-F-]{16,}\\]$", value) {
        Some(spans) => spans.len() > 0,
        None => false,
    }
}

/// Repository rules: paths that are not captured, and texts and patterns that
/// are removed from what is.
pub struct ThoughtIgnore {
    pub paths: Vec<String>,
    pub literals: Vec<String>,
    pub regexes: Vec<String>,
}

/// The contents of [`ThoughtIgnore`].
#[verifier::ext_equal]
pub struct PolicyModel {
    pub paths: Seq<Seq<char>>,
    pub literals: Seq<Seq<char>>,
    pub regexes: Seq<Seq<char>>,
}

impl View for ThoughtIgnore {
    type V = PolicyModel;

    open spec fn view(&self) -> PolicyModel {
        PolicyModel {
            paths: self.paths.deep_view(),
            literals: self.literals.deep_view(),
            regexes: self.regexes.deep_view(),
        }
    }
}

/// The policy without repository rules.
pub open spec fn no_policy() -> PolicyModel {
    PolicyModel { paths: Seq::empty(), literals: Seq::empty(), regexes: Seq::empty() }
}

impl Default for ThoughtIgnore {
    fn default() -> (r: Self)
        ensures
            r@ == no_policy(),
    {
        let r = ThoughtIgnore { paths: Vec::new(), literals: Vec::new(), regexes: Vec::new() };
        assert(r@ =~= no_policy()) by {
            assert(r.paths.deep_view() =~= Seq::<Seq<char>>::empty());
            assert(r.literals.deep_view() =~= Seq::<Seq<char>>::empty());
            assert(r.regexes.deep_view() =~= Seq::<Seq<char>>::empty());
        }
        r
    }
}

/// A path segment `..`, at any place.
pub open spec fn has_parent_segment(s: Seq<char>) -> bool {
    exists|i: int| #[trigger] parent_segment_at(s, i)
}

/// A path segment `..` at position `i`.
pub open spec fn parent_segment_at(s: Seq<char>, i: int) -> bool {
    &&& 0 <= i
    &&& i + 2 <= s.len()
    &&& s[i] == '.'
    &&& s[i + 1] == '.'
    &&& i == 0 || s[i - 1] == '/'
    &&& i + 2 == s.len() || s[i + 2] == '/'
}

/// Whether a path has a segment `..`.
pub fn parent_segment(s: &str) -> (r: bool)
    ensures
        r == has_parent_segment(s@),
{
    let chars = chars_of(s);
    let n: usize = chars.len();
    let mut i: usize = 0;
    while n >= 2 && i <= n - 2
        invariant
            n == chars@.len(),
            chars@ == s@,
            n >= 2 ==> i <= n - 1,
            n < 2 ==> i == 0,
            forall|k: int| 0 <= k < i ==> !#[trigger] parent_segment_at(s@, k),
        decreases n - i,
    {
        if chars[i] == '.' && chars[i + 1] == '.' && (i == 0 || chars[i - 1] == '/') && (i + 2 == n
            || chars[i + 2] == '/') {
            assert(parent_segment_at(s@, i as int));
            return true;
        }
        i += 1;
    }
    false
}

/// A relative path below the repository, in its plain notation.
pub open spec fn valid_policy_path(p: Seq<char>) -> bool {
    &&& p.len() > 0
    &&& p == text::trimmed(p)
    &&& text::first_at(p, "//"@, 0) is None
    &&& text::first_at(p, "\\"@, 0) is None
    &&& !text::has_prefix(p, "./"@)
    &&& text::first_at(p, "/./"@, 0) is None
    &&& !text::has_prefix(p, "/"@)
    &&& !has_parent_segment(p)
}

/// Checks that a rule names a relative path below the repository.
pub fn validate_path(p: &str) -> (r: Result<(), PrivacyError>)
    ensures
        r == (if valid_policy_path(p@) {
            Ok::<(), PrivacyError>(())
        } else {
            Err::<(), PrivacyError>(PrivacyError::Policy(PolicyFault::UnsafePath))
        }),
{
    let empty = p.is_empty();
    if empty || !text_equal(p, trim(p).as_str()) || contains_text(p, "//") || contains_text(
        p,
        "\\",
    ) || starts_with(p, "./") || contains_text(p, "/./") || starts_with(p, "/")
        || parent_segment(p) {
        Err(PrivacyError::Policy(PolicyFault::UnsafePath))
    } else {
        Ok(())
    }
}

/// A policy with one more directive.
pub open spec fn with_directive(p: PolicyModel, line: Seq<char>) -> Result<PolicyModel, PrivacyError> {
    if line.len() == 0 || line[0] == '#' {
        Ok(p)
    } else if text::byte_len(line) > MAX_DIRECTIVE {
        Err(PrivacyError::Policy(PolicyFault::DirectiveOversized))
    } else if text::has_prefix(line, "path:"@) {
        let x = line.skip(5);
        if valid_policy_path(x) {
            Ok(PolicyModel { paths: p.paths.push(x), ..p })
        } else {
            Err(PrivacyError::Policy(PolicyFault::UnsafePath))
        }
    } else if text::has_prefix(line, "literal:"@) {
        let x = line.skip(8);
        if x.len() == 0 || p.literals.len() == MAX_LITERALS {
            Err(PrivacyError::Policy(PolicyFault::InvalidLiteral))
        } else {
            Ok(PolicyModel { literals: p.literals.push(x), ..p })
        }
    } else if text::has_prefix(line, "regex:"@) {
        let x = line.skip(6);
        if p.regexes.len() == MAX_REGEXES || text::first_at(x, "(?"@, 0) is Some {
            Err(PrivacyError::Policy(PolicyFault::UnsafeRegex))
        } else if !valid_pattern(x) {
            Err(PrivacyError::Policy(PolicyFault::MalformedRegex))
        } else {
            Ok(PolicyModel { regexes: p.regexes.push(x), ..p })
        }
    } else {
        Err(PrivacyError::Policy(PolicyFault::UnknownDirective))
    }
}

/// A policy with the directives of the lines from position `k` on.
pub open spec fn with_lines(p: PolicyModel, lines: Seq<Seq<char>>, k: int) -> Result<
    PolicyModel,
    PrivacyError,
>
    decreases lines.len() - k,
{
    if k < 0 || k >= lines.len() {
        Ok(p)
    } else {
        match with_directive(p, text::trimmed(lines[k])) {
            Err(e) => Err(e),
            Ok(next) => with_lines(next, lines, k + 1),
        }
    }
}

/// The policy that the text of a policy file states.
pub open spec fn policy_of(text: Seq<char>) -> Result<PolicyModel, PrivacyError> {
    if text::byte_len(text) > MAX_POLICY {
        Err(PrivacyError::Policy(PolicyFault::Oversized))
    } else {
        with_lines(no_policy(), text::pieces(text, '\n'), 0)
    }
}

fn rest_of(chars: &Vec<char>, from: usize) -> (r: String)
    requires
        from <= chars@.len(),
    ensures
        r@ == chars@.skip(from as int),
{
    let r = text_of(chars.as_slice(), from, chars.len());
    assert(r@ =~= chars@.skip(from as int));
    r
}

impl ThoughtIgnore {
    fn add_directive(&mut self, line: &str) -> (r: Result<(), PrivacyError>)
        requires
            old(self).literals@.len() <= MAX_LITERALS,
            old(self).regexes@.len() <= MAX_REGEXES,
        ensures
            match with_directive(old(self)@, line@) {
                Ok(m) => {
                    &&& r is Ok
                    &&& final(self)@ == m
                    &&& final(self).literals@.len() <= MAX_LITERALS
                    &&& final(self).regexes@.len() <= MAX_REGEXES
                },
                Err(e) => r matches Err(f) && f == e,
            },
    {
        let ghost before = self@;
        let chars = chars_of(line);
        if chars.len() == 0 || chars[0] == '#' {
            return Ok(());
        }
        if bytes_len(line) > MAX_DIRECTIVE {
            return Err(PrivacyError::Policy(PolicyFault::DirectiveOversized));
        }
        proof {
            reveal_strlit("path:");
            reveal_strlit("literal:");
            reveal_strlit("regex:");
        }
        if starts_with(line, "path:") {
            let x = rest_of(&chars, 5);
            match validate_path(x.as_str()) {
                Ok(_) => {},
                Err(e) => {
                    return Err(e);
                },
            }
            self.paths.push(x);
            assert(self.paths.deep_view() =~= before.paths.push(x@));
            Ok(())
        } else if starts_with(line, "literal:") {
            let x = rest_of(&chars, 8);
            let empty = x.as_str().is_empty();
            assert(before.literals.len() == self.literals@.len());
            if empty || self.literals.len() == MAX_LITERALS {
                return Err(PrivacyError::Policy(PolicyFault::InvalidLiteral));
            }
            self.literals.push(x);
            assert(self.literals.deep_view() =~= before.literals.push(x@));
            Ok(())
        } else if starts_with(line, "regex:") {
            let x = rest_of(&chars, 6);
            assert(before.regexes.len() == self.regexes@.len());
            if self.regexes.len() == MAX_REGEXES || contains_text(x.as_str(), "(?") {
                return Err(PrivacyError::Policy(PolicyFault::UnsafeRegex));
            }
            if find_spans(x.as_str(), "").is_none() {
                return Err(PrivacyError::Policy(PolicyFault::MalformedRegex));
            }
            self.regexes.push(x);
            assert(self.regexes.deep_view() =~= before.regexes.push(x@));
            Ok(())
        } else {
            Err(PrivacyError::Policy(PolicyFault::UnknownDirective))
        }
    }

    /// Reads the text of a policy file.
    pub fn parse(text: &str) -> (r: Result<Self, PrivacyError>)
        ensures
            match policy_of(text@) {
                Ok(m) => r matches Ok(p) && p@ == m,
                Err(e) => r matches Err(f) && f == e,
            },
    {
        if bytes_len(text) > MAX_POLICY {
            return Err(PrivacyError::Policy(PolicyFault::Oversized));
        }
        let lines = split_text(text, '\n');
        let ghost ls = lines.deep_view();
        let mut p = ThoughtIgnore::default();
        assert(p.literals@.len() == p@.literals.len());
        assert(p.regexes@.len() == p@.regexes.len());
        let mut k: usize = 0;
        while k < lines.len()
            invariant
                k <= lines.len(),
                ls == lines.deep_view(),
                p.literals@.len() <= MAX_LITERALS,
                p.regexes@.len() <= MAX_REGEXES,
                with_lines(no_policy(), ls, 0) == with_lines(p@, ls, k as int),
                ls == text::pieces(text@, '\n'),
                text::byte_len(text@) <= MAX_POLICY,
            decreases lines.len() - k,
        {
            assert(ls[k as int] == lines@[k as int]@);
            let line = trim(lines[k].as_str());
            match p.add_directive(line.as_str()) {
                Ok(_) => {},
                Err(e) => {
                    return Err(e);
                },
            }
            k += 1;
        }
        Ok(p)
    }
}

/// A path that a policy keeps out of captures.
pub open spec fn ignored_path(p: PolicyModel, path: Seq<char>) -> bool {
    ||| path == ".thoughtignore"@
    ||| exists|k: int|
        0 <= k < p.paths.len() && (path == #[trigger] p.paths[k] || text::has_prefix(
            path,
            p.paths[k] + "/"@,
        ))
}

/// Redacting the first occurrences of the literals from position `li` on.
/// `ids` are the identifiers of the markers, `used` how many are used up.
pub open spec fn literals_removed(
    text: Seq<char>,
    literals: Seq<Seq<char>>,
    li: int,
    ids: Seq<u128>,
    used: nat,
) -> Result<(Seq<char>, nat), PrivacyError>
    decreases literals.len() - li, MAX_MATCHES - used,
{
    if li < 0 || li >= literals.len() {
        Ok((text, used))
    } else {
        match text::first_at(text, literals[li], 0) {
            None => literals_removed(text, literals, li + 1, ids, used),
            Some(at) => if used + 1 > MAX_MATCHES {
                Err(PrivacyError::Policy(PolicyFault::TooManyPolicyMatches))
            } else {
                literals_removed(
                    text.take(at) + marker_text("policy_literal"@, ids[used as int]) + text.skip(
                        at + literals[li].len(),
                    ),
                    literals,
                    li,
                    ids,
                    used + 1,
                )
            },
        }
    }
}

/// Redacts literals under given identifiers.
pub fn redact_literals(text: &str, literals: &Vec<String>, ids: &Vec<u128>) -> (r: Result<
    (String, usize),
    PrivacyError,
>)
    requires
        ids@.len() == MAX_MATCHES,
    ensures
        match literals_removed(text@, literals.deep_view(), 0, ids@, 0) {
            Ok((t, n)) => r matches Ok(v) && v.0@ == t && v.1 == n && n <= MAX_MATCHES,
            Err(e) => r matches Err(f) && f == e,
        },
{
    let ghost ls = literals.deep_view();
    let mut out = text.to_owned();
    let mut used: usize = 0;
    let mut li: usize = 0;
    while li < literals.len()
        invariant
            li <= literals.len(),
            used <= MAX_MATCHES,
            ids@.len() == MAX_MATCHES,
            ls == literals.deep_view(),
            literals_removed(text@, ls, 0, ids@, 0) == literals_removed(
                out@,
                ls,
                li as int,
                ids@,
                used as nat,
            ),
        decreases literals.len() - li, MAX_MATCHES - used,
    {
        assert(ls[li as int] == literals@[li as int]@);
        let chars = chars_of(out.as_str());
        let needle = chars_of(literals[li].as_str());
        match find_text(chars.as_slice(), needle.as_slice(), 0) {
            None => {
                li += 1;
            },
            Some(at) => {
                if used + 1 > MAX_MATCHES {
                    return Err(PrivacyError::Policy(PolicyFault::TooManyPolicyMatches));
                }
                let total: usize = chars.len();
                let width: usize = needle.len();
                let head = text_of(chars.as_slice(), 0, at);
                let mark = marker_with("policy_literal", ids[used]);
                let tail = text_of(chars.as_slice(), at + width, total);
                assert(head@ =~= out@.take(at as int));
                assert(tail@ =~= out@.skip(at + ls[li as int].len()));
                out = glue3(head.as_str(), mark.as_str(), tail.as_str());
                used += 1;
            },
        }
    }
    Ok((out, used))
}

/// Redacting the matches of the first `k` patterns of a policy behind `used`
/// earlier ones; `choice` holds the identifiers of the markers.
pub open spec fn patterns_removed(
    text: Seq<char>,
    used: nat,
    regexes: Seq<Seq<char>>,
    choice: Seq<Seq<u128>>,
    k: nat,
) -> Result<(Seq<char>, nat), PrivacyError>
    decreases k,
{
    if k == 0 {
        Ok((text, used))
    } else {
        match patterns_removed(text, used, regexes, choice, (k - 1) as nat) {
            Err(e) => Err(e),
            Ok((t, n)) => {
                let pattern = regexes[k - 1];
                let spans = matched_spans(pattern, t);
                if !valid_pattern(pattern) {
                    Err(PrivacyError::Policy(PolicyFault::MalformedRegex))
                } else if n + spans.len() > MAX_MATCHES {
                    Err(PrivacyError::Policy(PolicyFault::TooManyPolicyMatches))
                } else {
                    Ok(
                        (
                            redacted(
                                t,
                                spans,
                                marker_texts("policy_regex"@, choice[k - 1], spans.len()),
                            ),
                            n + spans.len(),
                        ),
                    )
                }
            },
        }
    }
}

/// What the rules of a policy make of a text that has been scrubbed, given the
/// identifiers of the new markers.
pub open spec fn rules_outcome(
    p: PolicyModel,
    text: Seq<char>,
    ids: Seq<u128>,
    regex_choice: Seq<Seq<u128>>,
) -> Result<Seq<char>, PrivacyError> {
    match literals_removed(text, p.literals, 0, ids, 0) {
        Err(e) => Err(e),
        Ok((t, n)) => match patterns_removed(t, n, p.regexes, regex_choice, p.regexes.len()) {
            Err(e) => Err(e),
            Ok((t2, _)) => Ok(t2),
        },
    }
}

/// What a policy makes of a text, given the identifiers of all new markers.
/// Repository rules add redactions; they never remove built-in ones.
pub open spec fn policy_outcome(
    p: PolicyModel,
    text: Seq<char>,
    choice: Seq<Seq<Seq<u128>>>,
    ids: Seq<u128>,
    regex_choice: Seq<Seq<u128>>,
) -> Result<Seq<char>, PrivacyError> {
    match scrub_outcome(text, choice) {
        Err(e) => Err(e),
        Ok(t) => rules_outcome(p, t, ids, regex_choice),
    }
}

/// A possible outcome of applying a policy to a text.
pub open spec fn may_clean(p: PolicyModel, text: Seq<char>, r: Result<Seq<char>, PrivacyError>) -> bool {
    exists|choice: Seq<Seq<Seq<u128>>>, ids: Seq<u128>, regex_choice: Seq<Seq<u128>>| #[trigger]
        policy_outcome(p, text, choice, ids, regex_choice) == r
}

proof fn lemma_patterns_prefix(
    text: Seq<char>,
    used: nat,
    regexes: Seq<Seq<char>>,
    a: Seq<Seq<u128>>,
    b: Seq<Seq<u128>>,
    k: nat,
)
    requires
        k <= a.len(),
        k <= b.len(),
        forall|i: int| 0 <= i < k ==> a[i] == b[i],
    ensures
        patterns_removed(text, used, regexes, a, k) == patterns_removed(text, used, regexes, b, k),
    decreases k,
{
    if k > 0 {
        lemma_patterns_prefix(text, used, regexes, a, b, (k - 1) as nat);
    }
}

proof fn lemma_patterns_failed(
    text: Seq<char>,
    used: nat,
    regexes: Seq<Seq<char>>,
    choice: Seq<Seq<u128>>,
    k: nat,
    n: nat,
)
    requires
        k <= n,
        patterns_removed(text, used, regexes, choice, k) is Err,
    ensures
        patterns_removed(text, used, regexes, choice, n) == patterns_removed(
            text,
            used,
            regexes,
            choice,
            k,
        ),
    decreases n - k,
{
    if k < n {
        lemma_patterns_failed(text, used, regexes, choice, k, (n - 1) as nat);
    }
}

impl ThoughtIgnore {
    /// Whether the policy keeps a path out of captures.
    pub fn ignores_path(&self, path: &str) -> (r: bool)
        ensures
            r == ignored_path(self@, path@),
    {
        if text_equal(path, ".thoughtignore") {
            return true;
        }
        let ghost ps = self@.paths;
        let mut k: usize = 0;
        while k < self.paths.len()
            invariant
                k <= self.paths.len(),
                ps == self@.paths,
                ps == self.paths.deep_view(),
                forall|i: int|
                    0 <= i < k ==> path@ != #[trigger] ps[i] && !text::has_prefix(path@, ps[i] + "/"@),
            decreases self.paths.len() - k,
        {
            assert(ps[k as int] == self.paths@[k as int]@);
            if text_equal(path, self.paths[k].as_str()) || starts_with(
                path,
                glue(self.paths[k].as_str(), "/").as_str(),
            ) {
                assert(path@ == self@.paths[k as int] || text::has_prefix(
                    path@,
                    self@.paths[k as int] + "/"@,
                ));
                return true;
            }
            k += 1;
        }
        false
    }

    /// Removes built-in secrets and whatever the policy names.
    pub fn scrub(&self, input: &str) -> (r: Result<String, PrivacyError>)
        ensures
            may_clean(self@, input@, result_text(r)),
            text::byte_len(input@) > MAX_TEXT ==> r == Err::<String, PrivacyError>(PrivacyError::TooLarge),
    {
        let first = scrub(input);
        let ghost choice = choose|choice: Seq<Seq<Seq<u128>>>| #[trigger]
            scrub_outcome(input@, choice) == result_text(first);
        let ghost no_ids: Seq<u128> = Seq::empty();
        let ghost none: Seq<Seq<u128>> = Seq::empty();
        let staged = match first {
            Ok(s) => s,
            Err(e) => {
                assert(policy_outcome(self@, input@, choice, no_ids, none) == Err::<
                    Seq<char>,
                    PrivacyError,
                >(e));
                return Err(e);
            },
        };
        let ids = fresh_ids(MAX_MATCHES);
        let (mut out, mut used) = match redact_literals(staged.as_str(), &self.literals, &ids) {
            Ok(v) => v,
            Err(e) => {
                assert(policy_outcome(self@, input@, choice, ids@, none) == Err::<
                    Seq<char>,
                    PrivacyError,
                >(e));
                return Err(e);
            },
        };
        let ghost text2 = out@;
        let ghost used2 = used as nat;
        let ghost mut rc: Seq<Seq<u128>> = Seq::empty();
        let ghost rs = self@.regexes;
        let mut k: usize = 0;
        while k < self.regexes.len()
            invariant
                k <= self.regexes.len(),
                rs == self@.regexes,
                rs == self.regexes.deep_view(),
                rc.len() == k,
                used <= MAX_MATCHES,
                scrub_outcome(input@, choice) == Ok::<Seq<char>, PrivacyError>(staged@),
                literals_removed(staged@, self@.literals, 0, ids@, 0) == Ok::<
                    (Seq<char>, nat),
                    PrivacyError,
                >((text2, used2)),
                patterns_removed(text2, used2, rs, rc, k as nat) == Ok::<
                    (Seq<char>, nat),
                    PrivacyError,
                >((out@, used as nat)),
                text::byte_len(input@) <= MAX_TEXT,
            decreases self.regexes.len() - k,
        {
            assert(rs[k as int] == self.regexes@[k as int]@);
            let found = find_spans(self.regexes[k].as_str(), out.as_str());
            let ghost mut fresh_view: Seq<u128> = Seq::empty();
            let step: Result<(String, usize), PrivacyError> = match &found {
                None => Err(PrivacyError::Policy(PolicyFault::MalformedRegex)),
                Some(spans) => {
                    if spans.len() > MAX_MATCHES - used {
                        Err(PrivacyError::Policy(PolicyFault::TooManyPolicyMatches))
                    } else {
                        let fresh = fresh_ids(spans.len());
                        proof {
                            fresh_view = fresh@;
                        }
                        Ok(
                            (
                                redact_spans(out.as_str(), spans, "policy_regex", &fresh),
                                used + spans.len(),
                            ),
                        )
                    }
                },
            };
            let ghost longer = rc.push(fresh_view);
            proof {
                lemma_patterns_prefix(text2, used2, rs, rc, longer, k as nat);
                assert(longer[k as int] == fresh_view);
            }
            match step {
                Err(e) => {
                    proof {
                        assert(patterns_removed(text2, used2, rs, longer, (k + 1) as nat) == Err::<
                            (Seq<char>, nat),
                            PrivacyError,
                        >(e));
                        assert(rs.len() == self.regexes@.len());
                        lemma_patterns_failed(
                            text2,
                            used2,
                            rs,
                            longer,
                            (k + 1) as nat,
                            rs.len(),
                        );
                        assert(policy_outcome(self@, input@, choice, ids@, longer) == Err::<
                            Seq<char>,
                            PrivacyError,
                        >(e));
                    }
                    return Err(e);
                },
                Ok((t, n)) => {
                    out = t;
                    used = n;
                },
            }
            proof {
                rc = longer;
                assert(patterns_removed(text2, used2, rs, rc, (k + 1) as nat) == Ok::<
                    (Seq<char>, nat),
                    PrivacyError,
                >((out@, used as nat)));
            }
            k += 1;
        }
        assert(rs.len() == self.regexes@.len());
        assert(policy_outcome(self@, input@, choice, ids@, rc) == Ok::<Seq<char>, PrivacyError>(
            out@,
        ));
        Ok(out)
    }
}

/// A possible outcome of redacting every text below a credential's name.
/// Markers stay, other texts become markers, the shape is kept.
pub open spec fn may_redact_all(a: JsonModel, b: JsonModel) -> bool
    decreases a,
{
    match a {
        JsonModel::Text(s) => if is_marker(s) {
            b == a
        } else {
            exists|id: u128| b == JsonModel::Text(#[trigger] marker_text("secret_assignment"@, id))
        },
        JsonModel::List(xs) => {
            &&& b is List
            &&& b->List_0.len() == xs.len()
            &&& forall|i: int|
                0 <= i < xs.len() ==> #[trigger] may_redact_all(xs[i], b->List_0[i])
        },
        JsonModel::Object(xs) => {
            &&& b is Object
            &&& b->Object_0.len() == xs.len()
            &&& forall|i: int|
                0 <= i < xs.len() ==> b->Object_0[i].0 == xs[i].0 && #[trigger] may_redact_all(
                    xs[i].1,
                    b->Object_0[i].1,
                )
        },
        _ => b == a,
    }
}

/// A credential-bearing key taints its complete JSON subtree.  Preserve the
/// caller's shape so consumers retain schema compatibility, but no string leaf
/// in that subtree may retain the credential value.
pub fn redact_json_leaves(value: &Json) -> (r: Json)
    ensures
        may_redact_all(value@, r@),
    decreases value,
{
    match value {
        Json::Text(s) => {
            if is_redaction_marker(s.as_str()) {
                Json::Text(s.clone())
            } else {
                let id = random_uuid();
                let m = marker_with("secret_assignment", id);
                assert(JsonModel::Text(m@) == JsonModel::Text(
                    marker_text("secret_assignment"@, id),
                ));
                Json::Text(m)
            }
        },
        Json::List(list) => {
            let mut out: Vec<Json> = Vec::new();
            let mut i: usize = 0;
            while i < list.len()
                invariant
                    i <= list.len(),
                    *value == Json::List(*list),
                    out.len() == i,
                    forall|k: int|
                        0 <= k < i ==> may_redact_all(list@[k]@, (#[trigger] out@[k])@),
                decreases list.len() - i,
            {
                assert(decreases_to!(*value => list@[i as int])) by {
                    assert(decreases_to!(value->List_0 => value->List_0@));
                    assert(decreases_to!(list@ => list@[i as int]));
                }
                out.push(redact_json_leaves(&list[i]));
                i += 1;
            }
            proof {
                json::lemma_list_model(*list);
                json::lemma_list_model(out);
                assert forall|k: int| 0 <= k < list@.len() implies #[trigger] may_redact_all(
                    json::list_models(list@)[k],
                    json::list_models(out@)[k],
                ) by {
                    assert(may_redact_all(list@[k]@, out@[k]@));
                }
            }
            Json::List(out)
        },
        Json::Object(members) => {
            let mut out: Vec<Member> = Vec::new();
            let mut i: usize = 0;
            while i < members.len()
                invariant
                    i <= members.len(),
                    *value == Json::Object(*members),
                    out.len() == i,
                    forall|k: int|
                        0 <= k < i ==> (#[trigger] out@[k]).name@ == members@[k].name@
                            && may_redact_all(members@[k].value@, out@[k].value@),
                decreases members.len() - i,
            {
                assert(decreases_to!(*value => members@[i as int].value)) by {
                    assert(decreases_to!(value->Object_0 => value->Object_0@));
                    assert(decreases_to!(members@ => members@[i as int]));
                }
                out.push(
                    Member {
                        name: members[i].name.clone(),
                        value: redact_json_leaves(&members[i].value),
                    },
                );
                i += 1;
            }
            proof {
                json::lemma_object_model(*members);
                json::lemma_object_model(out);
                let xs = json::member_models(members@);
                let ys = json::member_models(out@);
                assert forall|k: int| 0 <= k < xs.len() implies ys[k].0 == xs[k].0
                    && #[trigger] may_redact_all(xs[k].1, ys[k].1) by {
                    assert(out@[k].name@ == members@[k].name@);
                }
            }
            Json::Object(out)
        },
        _ => value.clone(),
    }
}

/// The object that results from setting these members one after the other.
pub open spec fn object_of(pairs: Seq<(Seq<char>, JsonModel)>, n: nat) -> Seq<
    (Seq<char>, JsonModel),
>
    decreases n,
{
    if n == 0 {
        Seq::empty()
    } else {
        json::with_member(object_of(pairs, (n - 1) as nat), pairs[n - 1].0, pairs[n - 1].1)
    }
}

/// Names and values that a policy may make of a member: the name is scrubbed;
/// the value of a credential is redacted whole, any other value is scrubbed.
pub open spec fn may_clean_json(p: PolicyModel, a: JsonModel, b: JsonModel) -> bool
    decreases a,
{
    match a {
        JsonModel::Text(s) => b is Text && may_clean(p, s, Ok(b->Text_0)),
        JsonModel::List(xs) => {
            &&& b is List
            &&& b->List_0.len() == xs.len()
            &&& forall|i: int|
                0 <= i < xs.len() ==> may_clean_json(p, xs[i], #[trigger] b->List_0[i])
        },
        JsonModel::Object(xs) => {
            &&& b is Object
            &&& exists|pairs: Seq<(Seq<char>, JsonModel)>|
                {
                    &&& pairs.len() == xs.len()
                    &&& b->Object_0 == #[trigger] object_of(pairs, pairs.len())
                    &&& forall|i: int|
                        0 <= i < xs.len() ==> {
                            &&& may_clean(p, xs[i].0, Ok((#[trigger] pairs[i]).0))
                            &&& if credential_name(normalized_name(xs[i].0)) {
                                may_redact_all(xs[i].1, pairs[i].1)
                            } else {
                                may_clean_json(p, xs[i].1, pairs[i].1)
                            }
                        }
                }
        },
        _ => b == a,
    }
}

/// A text of the document or a name in it on which the policy may fail so.
pub open spec fn may_fail_in(p: PolicyModel, a: JsonModel, e: PrivacyError) -> bool
    decreases a, 0nat,
{
    match a {
        JsonModel::Text(s) => may_clean(p, s, Err(e)),
        JsonModel::List(xs) => may_fail_in_list(p, xs, xs.len(), e),
        JsonModel::Object(xs) => may_fail_in_object(p, xs, xs.len(), e),
        _ => false,
    }
}

/// Such a text or name among the first `n` documents of a list.
pub open spec fn may_fail_in_list(p: PolicyModel, xs: Seq<JsonModel>, n: nat, e: PrivacyError) -> bool
    decreases xs, n,
{
    if n == 0 || n > xs.len() {
        false
    } else {
        may_fail_in(p, xs[n - 1], e) || may_fail_in_list(p, xs, (n - 1) as nat, e)
    }
}

/// Such a text or name among the first `n` members of an object.
pub open spec fn may_fail_in_object(
    p: PolicyModel,
    xs: Seq<(Seq<char>, JsonModel)>,
    n: nat,
    e: PrivacyError,
) -> bool
    decreases xs, n,
{
    if n == 0 || n > xs.len() {
        false
    } else {
        may_clean(p, xs[n - 1].0, Err(e)) || may_fail_in(p, xs[n - 1].1, e) || may_fail_in_object(
            p,
            xs,
            (n - 1) as nat,
            e,
        )
    }
}

proof fn lemma_fail_in_list(p: PolicyModel, xs: Seq<JsonModel>, i: int, n: nat, e: PrivacyError)
    requires
        0 <= i < n <= xs.len(),
        may_fail_in(p, xs[i], e),
    ensures
        may_fail_in_list(p, xs, n, e),
    decreases n,
{
    if i < n - 1 {
        lemma_fail_in_list(p, xs, i, (n - 1) as nat, e);
    }
}

proof fn lemma_fail_in_object(
    p: PolicyModel,
    xs: Seq<(Seq<char>, JsonModel)>,
    i: int,
    n: nat,
    e: PrivacyError,
)
    requires
        0 <= i < n <= xs.len(),
        may_clean(p, xs[i].0, Err(e)) || may_fail_in(p, xs[i].1, e),
    ensures
        may_fail_in_object(p, xs, n, e),
    decreases n,
{
    if i < n - 1 {
        lemma_fail_in_object(p, xs, i, (n - 1) as nat, e);
    }
}

/// Scrubs the texts and names of a document under a policy.
pub fn scrub_value_with_policy(value: &Json, policy: &ThoughtIgnore) -> (r: Result<
    Json,
    PrivacyError,
>)
    ensures
        match r {
            Ok(j) => may_clean_json(policy@, value@, j@),
            Err(e) => may_fail_in(policy@, value@, e),
        },
    decreases value,
{
    match value {
        Json::Text(s) => match policy.scrub(s.as_str()) {
            Ok(t) => Ok(Json::Text(t)),
            Err(e) => Err(e),
        },
        Json::List(list) => {
            let mut out: Vec<Json> = Vec::new();
            let mut i: usize = 0;
            proof {
                json::lemma_list_model(*list);
            }
            while i < list.len()
                invariant
                    i <= list.len(),
                    *value == Json::List(*list),
                    value@ == JsonModel::List(json::list_models(list@)),
                    out.len() == i,
                    forall|k: int|
                        0 <= k < i ==> may_clean_json(policy@, list@[k]@, (#[trigger] out@[k])@),
                decreases list.len() - i,
            {
                assert(decreases_to!(*value => list@[i as int])) by {
                    assert(decreases_to!(value->List_0 => value->List_0@));
                    assert(decreases_to!(list@ => list@[i as int]));
                }
                match scrub_value_with_policy(&list[i], policy) {
                    Ok(j) => {
                        out.push(j);
                    },
                    Err(e) => {
                        proof {
                            let xs = json::list_models(list@);
                            assert(xs[i as int] == list@[i as int]@);
                            lemma_fail_in_list(policy@, xs, i as int, xs.len(), e);
                        }
                        return Err(e);
                    },
                }
                i += 1;
            }
            proof {
                json::lemma_list_model(out);
                assert forall|k: int| 0 <= k < list@.len() implies #[trigger] may_clean_json(
                    policy@,
                    json::list_models(list@)[k],
                    json::list_models(out@)[k],
                ) by {
                    assert(may_clean_json(policy@, list@[k]@, out@[k]@));
                }
            }
            Ok(Json::List(out))
        },
        Json::Object(members) => {
            let mut out: Vec<Member> = Vec::new();
            let ghost mut pairs: Seq<(Seq<char>, JsonModel)> = Seq::empty();
            let ghost xs = json::member_models(members@);
            let mut i: usize = 0;
            proof {
                json::lemma_object_model(*members);
                assert(json::member_models(out@) =~= object_of(pairs, 0));
            }
            while i < members.len()
                invariant
                    i <= members.len(),
                    *value == Json::Object(*members),
                    xs == json::member_models(members@),
                    value@ == JsonModel::Object(xs),
                    pairs.len() == i,
                    json::member_models(out@) == object_of(pairs, i as nat),
                    forall|k: int|
                        0 <= k < i ==> {
                            &&& may_clean(policy@, xs[k].0, Ok((#[trigger] pairs[k]).0))
                            &&& if credential_name(normalized_name(xs[k].0)) {
                                may_redact_all(xs[k].1, pairs[k].1)
                            } else {
                                may_clean_json(policy@, xs[k].1, pairs[k].1)
                            }
                        },
                decreases members.len() - i,
            {
                let m = &members[i];
                assert(xs[i as int] == (m.name@, m.value@));
                assert(decreases_to!(*value => members@[i as int].value)) by {
                    assert(decreases_to!(value->Object_0 => value->Object_0@));
                    assert(decreases_to!(members@ => members@[i as int]));
                }
                let credential = is_credential_key(m.name.as_str());
                let name = match policy.scrub(m.name.as_str()) {
                    Ok(s) => s,
                    Err(e) => {
                        proof {
                            lemma_fail_in_object(policy@, xs, i as int, xs.len(), e);
                        }
                        return Err(e);
                    },
                };
                let v = if credential {
                    redact_json_leaves(&m.value)
                } else {
                    match scrub_value_with_policy(&m.value, policy) {
                        Ok(j) => j,
                        Err(e) => {
                            proof {
                                lemma_fail_in_object(policy@, xs, i as int, xs.len(), e);
                            }
                            return Err(e);
                        },
                    }
                };
                let ghost longer = pairs.push((name@, v@));
                proof {
                    lemma_object_of_prefix(pairs, longer, i as nat);
                }
                set_member(&mut out, name, v);
                proof {
                    assert(longer[i as int] == (name@, v@));
                    assert(json::member_models(out@) == object_of(longer, (i + 1) as nat));
                    pairs = longer;
                }
                i += 1;
            }
            proof {
                json::lemma_object_model(out);
                assert(out@.len() == json::member_models(out@).len());
                assert(xs.len() == members@.len());
                assert(json::json_model(Json::Object(out))->Object_0 == object_of(pairs, pairs.len()));
            }
            Ok(Json::Object(out))
        },
        _ => Ok(value.clone()),
    }
}

proof fn lemma_object_of_prefix(
    a: Seq<(Seq<char>, JsonModel)>,
    b: Seq<(Seq<char>, JsonModel)>,
    n: nat,
)
    requires
        n <= a.len(),
        n <= b.len(),
        forall|i: int| 0 <= i < n ==> a[i] == b[i],
    ensures
        object_of(a, n) == object_of(b, n),
    decreases n,
{
    if n > 0 {
        lemma_object_of_prefix(a, b, (n - 1) as nat);
    }
}

/// A possible outcome of scrubbing a text that may be a JSON document.
pub open spec fn may_clean_text(p: PolicyModel, text: Seq<char>, r: Result<
    Seq<char>,
    PrivacyError,
>) -> bool {
    if text::byte_len(text) > MAX_TEXT {
        r == Err::<Seq<char>, PrivacyError>(PrivacyError::TooLarge)
    } else {
        match json::parsed_json(text) {
            None => may_clean(p, text, r),
            Some(doc) => match r {
                Ok(t) => exists|b: JsonModel|
                    may_clean_json(p, doc, b) && t == #[trigger] json::printed_json(b),
                Err(e) => may_fail_in(p, doc, e),
            },
        }
    }
}

/// Scrubs a text that may be a JSON document under a policy.
pub fn scrub_json_with_policy(input: &str, policy: &ThoughtIgnore) -> (r: Result<
    String,
    PrivacyError,
>)
    ensures
        may_clean_text(policy@, input@, result_text(r)),
{
    if bytes_len(input) > MAX_TEXT {
        return Err(PrivacyError::TooLarge);
    }
    match parse_json(input) {
        Some(doc) => match scrub_value_with_policy(&doc, policy) {
            Ok(j) => {
                let t = print_json(&j);
                assert(t@ == json::printed_json(j@));
                Ok(t)
            },
            Err(e) => Err(e),
        },
        None => policy.scrub(input),
    }
}

/// Scrubs a text that may be a JSON document.
pub fn scrub_json(input: &str) -> (r: Result<String, PrivacyError>)
    ensures
        may_clean_text(no_policy(), input@, result_text(r)),
{
    let policy = ThoughtIgnore::default();
    scrub_json_with_policy(input, &policy)
}

/// A verdict that tool arguments may get: they are sanitized where scrubbing
/// may leave them as they are.
pub open spec fn may_sanitize(text: Seq<char>, r: Result<(), PrivacyError>) -> bool {
    match r {
        Ok(_) => may_clean_text(no_policy(), text, Ok(text)),
        Err(e) => may_clean_text(no_policy(), text, Err(e)) || (e == PrivacyError::Policy(
            PolicyFault::UnsanitizedJson,
        ) && exists|t: Seq<char>| t != text && #[trigger] may_clean_text(
            no_policy(),
            text,
            Ok(t),
        )),
    }
}

/// Verifies the precise JSON tool-arguments representation is already
/// credential-aware sanitized (rather than merely free of built-in token
/// patterns).
pub fn validate_sanitized_json(input: &str) -> (r: Result<(), PrivacyError>)
    ensures
        may_sanitize(input@, r),
{
    match scrub_json(input) {
        Err(e) => Err(e),
        Ok(s) => {
            if !text_equal(s.as_str(), input) {
                assert(may_clean_text(no_policy(), input@, Ok(s@)));
                return Err(PrivacyError::Policy(PolicyFault::UnsanitizedJson));
            }
            Ok(())
        },
    }
}

/// A text that may serve as a relational key.
pub open spec fn safe_identifier(s: Seq<char>) -> bool {
    &&& 0 < s.len() <= 256
    &&& forall|i: int| 0 <= i < s.len() ==> identifier_char(#[trigger] s[i])
}

/// A character of a relational key.
pub open spec fn identifier_char(c: char) -> bool {
    is_alphanumeric(c) || c == '-' || c == '_' || c == '.' || c == ':'
}

/// Whether a text may serve as a relational key.
pub fn is_safe_identifier(value: &str) -> (r: bool)
    ensures
        r == safe_identifier(value@),
{
    let chars = chars_of(value);
    if chars.len() == 0 || chars.len() > 256 {
        return false;
    }
    let mut i: usize = 0;
    while i < chars.len()
        invariant
            i <= chars.len(),
            chars@ == value@,
            0 < chars@.len() <= 256,
            forall|k: int| 0 <= k < i ==> identifier_char(#[trigger] chars@[k]),
        decreases chars.len() - i,
    {
        let c = chars[i];
        if !((c >= 'a' && c <= 'z') || (c >= 'A' && c <= 'Z') || (c >= '0' && c <= '9') || c == '-'
            || c == '_' || c == '.' || c == ':') {
            assert(!identifier_char(value@[i as int]));
            return false;
        }
        i += 1;
    }
    true
}

/// The name of an object: forty or sixty-four hexadecimal digits.
pub open spec fn full_oid(s: Seq<char>) -> bool {
    digest::is_hex(s, 40) || digest::is_hex(s, 64)
}

/// Whether a text is the full name of an object.
pub fn is_oid(value: &str) -> (r: bool)
    ensures
        r == full_oid(value@),
{
    any_hex(value, 40) || any_hex(value, 64)
}

/// A possible outcome of scrubbing an optional text.
pub open spec fn may_clean_opt(p: PolicyModel, a: Option<Seq<char>>, b: Option<Seq<char>>) -> bool {
    match a {
        None => b is None,
        Some(s) => b is Some && may_clean(p, s, Ok(b->0)),
    }
}

pub(crate) fn clean_opt(policy: &ThoughtIgnore, a: &Option<String>) -> (r: Result<Option<String>, PrivacyError>)
    ensures
        match r {
            Ok(b) => may_clean_opt(policy@, models::opt_text(*a), models::opt_text(b)),
            Err(e) => a matches Some(s) && may_clean(policy@, s@, Err(e)),
        },
{
    match a {
        None => Ok(None),
        Some(s) => match policy.scrub(s.as_str()) {
            Ok(t) => Ok(Some(t)),
            Err(e) => Err(e),
        },
    }
}

} // verus!
