//! Strict ingestion of rewrite notices: the record format, the events that a
//! rewrite derives, and the rules of the inbox that holds notices until they are
//! applied.

use crate::derivation;
use crate::digest;
use crate::digest::{hex_digest, lower_hex, put_bytes};
use crate::models;
use crate::models::{
    CommitSha, DerivationEvent, DerivationOrigin, DerivationRelation, EventModel, Evidence,
    EvidenceKind, InteractionId, SnapshotModel, SourceSnapshot,
};
use crate::order;
use crate::order::insert_sorted;
use crate::text;
use crate::text::{
    bytes_equal, bytes_len, chars_of, ends_with, glue, glue3, split_text, starts_with,
    string_from_bytes, text_equal, text_of,
};
use crate::textset;
use crate::textset::note_first;
use vstd::hash_map::*;
use vstd::prelude::*;
use vstd::string::*;
use vstd::utf8::*;

verus! {

pub const MAX_REWRITE_BYTES: usize = 1048576;

pub const MAX_REWRITE_PAIRS: usize = 10000;

pub const MAX_INBOX_FILES: usize = 64;

pub const MAX_INBOX_BYTES: u64 = 33554432;

pub const MAX_QUARANTINE_FILES: usize = 32;

pub const MAX_QUARANTINE_BYTES: u64 = 8388608;

/// How long an unfinished inbox file may lie before it counts as abandoned, in seconds.
pub const STALE_TEMPORARY_SECS: u64 = 3600;

/// The command that rewrote the history.
#[derive(Debug, Clone, Copy, PartialEq, Eq, Structural)]
pub enum RewriteMode {
    Amend,
    Rebase,
}

impl RewriteMode {
    /// The word for the mode.
    pub open spec fn name(self) -> Seq<char> {
        match self {
            RewriteMode::Amend => "amend"@,
            RewriteMode::Rebase => "rebase"@,
        }
    }

    /// The word for the mode.
    pub fn as_str(self) -> (r: &'static str)
        ensures
            r@ == self.name(),
    {
        match self {
            RewriteMode::Amend => "amend",
            RewriteMode::Rebase => "rebase",
        }
    }
}

/// A commit and the commit that replaced it.
#[derive(Debug, PartialEq, Eq)]
pub struct RewritePair {
    pub old: CommitSha,
    pub new: CommitSha,
}

impl View for RewritePair {
    type V = (Seq<char>, Seq<char>);

    open spec fn view(&self) -> (Seq<char>, Seq<char>) {
        (self.old@, self.new@)
    }
}

impl Clone for RewritePair {
    fn clone(&self) -> (r: Self)
        ensures
            r@ == self@,
    {
        RewritePair { old: self.old.clone(), new: self.new.clone() }
    }
}

/// The contents of pairs.
pub open spec fn pair_models(s: Seq<RewritePair>) -> Seq<(Seq<char>, Seq<char>)> {
    s.map_values(|p: RewritePair| p@)
}

/// Why a rewrite notice was not taken in.
#[derive(Debug)]
pub enum RewriteError {
    /// The notice itself is at fault and never will be taken in.
    Permanent(&'static str),
    /// The notice can be delivered again later.
    Retryable(&'static str),
    Io(String),
    Git(String),
    Db(String),
}

impl RewriteError {
    /// The message for people.
    pub open spec fn text(self) -> Seq<char> {
        match self {
            RewriteError::Permanent(words) => "invalid post-rewrite input: "@ + words@,
            RewriteError::Retryable(words) => "retryable post-rewrite operation: "@ + words@,
            RewriteError::Io(words) => "io: "@ + words@,
            RewriteError::Git(words) => "git: "@ + words@,
            RewriteError::Db(words) => "db: "@ + words@,
        }
    }

    /// The message for people.
    pub fn message(&self) -> (r: String)
        ensures
            r@ == self.text(),
    {
        match self {
            RewriteError::Permanent(words) => glue("invalid post-rewrite input: ", words),
            RewriteError::Retryable(words) => glue("retryable post-rewrite operation: ", words),
            RewriteError::Io(words) => glue("io: ", words.as_str()),
            RewriteError::Git(words) => glue("git: ", words.as_str()),
            RewriteError::Db(words) => glue("db: ", words.as_str()),
        }
    }

    /// Whether delivering the notice again is pointless.
    pub fn is_permanent(&self) -> (r: bool)
        ensures
            r == (*self is Permanent),
    {
        match self {
            RewriteError::Permanent(_) => true,
            _ => false,
        }
    }
}

/// The error says that the notice is at fault, in these words.
pub open spec fn rejects(e: RewriteError, reason: Seq<char>) -> bool {
    e matches RewriteError::Permanent(said) && said@ == reason
}

/// The full name of an object: forty or sixty-four lower-case hexadecimal
/// digits, not all of them zero.
pub open spec fn is_full_oid(s: Seq<char>) -> bool {
    &&& digest::is_lower_hex(s, 40) || digest::is_lower_hex(s, 64)
    &&& exists|i: int| 0 <= i < s.len() && #[trigger] s[i] != '0'
}

/// Whether a text is the full name of an object.
pub fn valid_oid(s: &str) -> (r: bool)
    ensures
        r == is_full_oid(s@),
{
    if !lower_hex(s, 40) && !lower_hex(s, 64) {
        return false;
    }
    let chars = chars_of(s);
    let n: usize = chars.len();
    let mut i: usize = 0;
    while i < n
        invariant
            i <= n,
            n == chars@.len(),
            chars@ == s@,
            digest::is_lower_hex(s@, 40) || digest::is_lower_hex(s@, 64),
            forall|k: int| 0 <= k < i ==> s@[k] == '0',
        decreases n - i,
    {
        if chars[i] != '0' {
            assert(s@[i as int] != '0');
            return true;
        }
        i += 1;
    }
    false
}

/// The mode that a word names.
pub open spec fn mode_of(word: Seq<char>) -> Option<RewriteMode> {
    if word == "amend"@ {
        Some(RewriteMode::Amend)
    } else if word == "rebase"@ {
        Some(RewriteMode::Rebase)
    } else {
        None
    }
}

/// The bytes cannot be a notice at all: too many, none, no final line break, or
/// a carriage return or a zero among them.
pub open spec fn forbidden_input(input: Seq<u8>) -> bool {
    ||| input.len() > MAX_REWRITE_BYTES
    ||| input.len() == 0
    ||| input.last() != 10
    ||| input.contains(13u8)
    ||| input.contains(0u8)
}

/// The two columns of a line.
pub open spec fn row_of(line: Seq<char>) -> Result<(Seq<char>, Seq<char>), Seq<char>> {
    let columns = text::pieces(line, ' ');
    if line.len() == 0 {
        Err("blank line"@)
    } else if columns.len() != 2 || !is_full_oid(columns[0]) || !is_full_oid(columns[1])
        || columns[0].len() != columns[1].len() {
        Err("expected two lowercase full matching-width oids"@)
    } else if columns[0] == columns[1] {
        Err("old and new oid must differ"@)
    } else {
        Ok((columns[0], columns[1]))
    }
}

/// The first columns of rows.
pub open spec fn olds(rows: Seq<(Seq<char>, Seq<char>)>) -> Seq<Seq<char>> {
    rows.map_values(|row: (Seq<char>, Seq<char>)| row.0)
}

/// The rows of the first `k` lines, or why they are refused.
pub open spec fn rows(lines: Seq<Seq<char>>, k: nat) -> Result<
    Seq<(Seq<char>, Seq<char>)>,
    Seq<char>,
>
    decreases k,
{
    if k == 0 {
        Ok(Seq::empty())
    } else {
        match rows(lines, (k - 1) as nat) {
            Err(e) => Err(e),
            Ok(done) => match row_of(lines[k - 1]) {
                Err(e) => Err(e),
                Ok(row) => if olds(done).contains(row.0) {
                    Err("duplicate old oid"@)
                } else if done.len() + 1 > MAX_REWRITE_PAIRS {
                    Err("too many pairs"@)
                } else {
                    Ok(done.push(row))
                },
            },
        }
    }
}

proof fn lemma_rows_stuck(lines: Seq<Seq<char>>, k: nat, n: nat)
    requires
        k <= n,
        rows(lines, k) is Err,
    ensures
        rows(lines, n) == rows(lines, k),
    decreases n,
{
    if k < n {
        lemma_rows_stuck(lines, k, (n - 1) as nat);
    }
}

/// The rows in ascending order of their first column.
pub open spec fn arranged(rows: Seq<(Seq<char>, Seq<char>)>) -> Seq<(Seq<char>, Seq<char>)> {
    order::sorted_set(olds(rows)).map_values(
        |old: Seq<char>| (old, rows[textset::position_of(olds(rows), old, 0)->0].1),
    )
}

/// What a notice says: the mode and the replaced commits in ascending order.
pub open spec fn parsed_rewrite(mode: Seq<char>, input: Seq<u8>) -> Result<
    (RewriteMode, Seq<(Seq<char>, Seq<char>)>),
    Seq<char>,
> {
    let lines = text::pieces(decode_utf8(input).drop_last(), '\n');
    match mode_of(mode) {
        None => Err("mode must be amend or rebase"@),
        Some(kind) => if forbidden_input(input) {
            Err("input limit or forbidden byte"@)
        } else if !valid_utf8(input) {
            Err("not utf8"@)
        } else {
            match rows(lines, lines.len()) {
                Err(e) => Err(e),
                Ok(done) => if kind is Amend && done.len() != 1 {
                    Err("amend requires exactly one pair"@)
                } else {
                    Ok((kind, arranged(done)))
                },
            }
        },
    }
}

fn is_forbidden(input: &[u8]) -> (r: bool)
    ensures
        r == forbidden_input(input@),
{
    let n: usize = input.len();
    if n > MAX_REWRITE_BYTES || n == 0 || input[n - 1] != 10 {
        return true;
    }
    let mut i: usize = 0;
    while i < n
        invariant
            i <= n,
            n == input@.len(),
            forall|k: int| 0 <= k < i ==> input@[k] != 13 && input@[k] != 0,
        decreases n - i,
    {
        if input[i] == 13 || input[i] == 0 {
            assert(input@.contains(input@[i as int]));
            return true;
        }
        i += 1;
    }
    false
}

fn read_row(line: &str) -> (r: Result<(String, String), &'static str>)
    ensures
        match r {
            Ok(row) => row_of(line@) == Ok::<(Seq<char>, Seq<char>), Seq<char>>((row.0@, row.1@)),
            Err(said) => row_of(line@) == Err::<(Seq<char>, Seq<char>), Seq<char>>(said@),
        },
{
    if bytes_len(line) == 0 {
        assert(line@ =~= Seq::<char>::empty()) by {
            if line@.len() > 0 {
                assert(encode_utf8(line@).len() > 0);
            }
        }
        return Err("blank line");
    }
    assert(line@.len() > 0) by {
        if line@.len() == 0 {
            assert(encode_utf8(line@).len() == 0);
        }
    }
    let columns = split_text(line, ' ');
    let ghost seen = columns.deep_view();
    if columns.len() != 2 {
        return Err("expected two lowercase full matching-width oids");
    }
    assert(seen[0] == columns@[0]@ && seen[1] == columns@[1]@);
    if !valid_oid(columns[0].as_str()) || !valid_oid(columns[1].as_str())
        || chars_of(columns[0].as_str()).len() != chars_of(columns[1].as_str()).len() {
        return Err("expected two lowercase full matching-width oids");
    }
    if text_equal(columns[0].as_str(), columns[1].as_str()) {
        return Err("old and new oid must differ");
    }
    Ok((columns[0].clone(), columns[1].clone()))
}

/// The rows and the ascending list of their first columns, while lines are read.
struct Rows {
    old: Vec<String>,
    new: Vec<String>,
    sorted: Vec<String>,
    first: StringHashMap<usize>,
}

impl Rows {
    spec fn stands_for(self, done: Seq<(Seq<char>, Seq<char>)>) -> bool {
        &&& self.old@.len() == done.len()
        &&& self.new@.len() == done.len()
        &&& self.old.deep_view() == olds(done)
        &&& forall|i: int| 0 <= i < done.len() ==> self.new@[i]@ == (#[trigger] done[i]).1
        &&& self.sorted.deep_view() == order::sorted_set(olds(done))
        &&& order::strictly_sorted(self.sorted.deep_view())
        &&& textset::is_first_index(self.first@, olds(done))
    }
}

fn read_rows(lines: &Vec<String>) -> (r: Result<Rows, &'static str>)
    ensures
        match r {
            Ok(held) => rows(lines.deep_view(), lines@.len()) is Ok && held.stands_for(
                rows(lines.deep_view(), lines@.len())->Ok_0,
            ),
            Err(said) => rows(lines.deep_view(), lines@.len()) == Err::<
                Seq<(Seq<char>, Seq<char>)>,
                Seq<char>,
            >(said@),
        },
{
    let ghost texts = lines.deep_view();
    let n: usize = lines.len();
    let mut held = Rows {
        old: Vec::new(),
        new: Vec::new(),
        sorted: Vec::new(),
        first: StringHashMap::new(),
    };
    let ghost mut done: Seq<(Seq<char>, Seq<char>)> = Seq::empty();
    assert(olds(done) =~= Seq::<Seq<char>>::empty());
    assert(held.old.deep_view() =~= Seq::<Seq<char>>::empty());
    assert(held.sorted.deep_view() =~= Seq::<Seq<char>>::empty());
    let mut i: usize = 0;
    while i < n
        invariant
            i <= n,
            n == lines@.len(),
            texts == lines.deep_view(),
            rows(texts, i as nat) == Ok::<Seq<(Seq<char>, Seq<char>)>, Seq<char>>(done),
            held.stands_for(done),
        decreases n - i,
    {
        assert(texts[i as int] == lines@[i as int]@);
        let row = match read_row(lines[i].as_str()) {
            Err(said) => {
                proof {
                    lemma_rows_stuck(texts, (i + 1) as nat, n as nat);
                }
                return Err(said);
            },
            Ok(row) => row,
        };
        let ghost pair = (row.0@, row.1@);
        let known = held.first.contains_key(row.0.as_str());
        proof {
            textset::lemma_position_of(olds(done), row.0@, 0);
            let at = textset::position_of(olds(done), row.0@, 0);
            assert(known == (at is Some)) by {
                let _ = held.first@.contains_key(row.0@);
            }
            if olds(done).contains(row.0@) {
                let j = choose|j: int| 0 <= j < olds(done).len() && olds(done)[j] == row.0@;
            }
            assert(known == olds(done).contains(row.0@));
        }
        if known {
            proof {
                lemma_rows_stuck(texts, (i + 1) as nat, n as nat);
            }
            return Err("duplicate old oid");
        }
        if held.old.len() >= MAX_REWRITE_PAIRS {
            proof {
                lemma_rows_stuck(texts, (i + 1) as nat, n as nat);
            }
            return Err("too many pairs");
        }
        let at: usize = held.old.len();
        let ghost before = olds(done);
        note_first(&mut held.first, row.0.as_str(), at);
        insert_sorted(&mut held.sorted, row.0.clone());
        held.old.push(row.0);
        held.new.push(row.1);
        proof {
            assert(olds(done.push(pair)) =~= before.push(pair.0));
            assert(before.push(pair.0).drop_last() =~= before);
            assert(held.old.deep_view() =~= before.push(pair.0));
            done = done.push(pair);
        }
        i += 1;
    }
    Ok(held)
}

/// Reads a rewrite notice: a mode and one line per replaced commit, the old name,
/// a space and the new name.
pub fn parse(mode: &str, input: &[u8]) -> (r: Result<(RewriteMode, Vec<RewritePair>), RewriteError>)
    ensures
        match r {
            Ok(found) => parsed_rewrite(mode@, input@) == Ok::<
                (RewriteMode, Seq<(Seq<char>, Seq<char>)>),
                Seq<char>,
            >((found.0, pair_models(found.1@))),
            Err(e) => parsed_rewrite(mode@, input@) is Err && rejects(
                e,
                parsed_rewrite(mode@, input@)->Err_0,
            ),
        },
{
    let kind = if text_equal(mode, "amend") {
        RewriteMode::Amend
    } else if text_equal(mode, "rebase") {
        RewriteMode::Rebase
    } else {
        return Err(RewriteError::Permanent("mode must be amend or rebase"));
    };
    if is_forbidden(input) {
        return Err(RewriteError::Permanent("input limit or forbidden byte"));
    }
    let mut bytes: Vec<u8> = Vec::new();
    put_bytes(&mut bytes, input);
    assert(bytes@ =~= input@);
    let decoded = match string_from_bytes(bytes) {
        None => {
            return Err(RewriteError::Permanent("not utf8"));
        },
        Some(decoded) => decoded,
    };
    let chars = chars_of(decoded.as_str());
    let n: usize = chars.len();
    assert(n > 0);
    let body = text_of(chars.as_slice(), 0, n - 1);
    assert(body@ =~= decode_utf8(input@).drop_last());
    let lines = split_text(body.as_str(), '\n');
    assert(lines.deep_view().len() == lines@.len());
    let held = match read_rows(&lines) {
        Err(said) => {
            return Err(RewriteError::Permanent(said));
        },
        Ok(held) => held,
    };
    let ghost done = rows(lines.deep_view(), lines@.len())->Ok_0;
    if kind == RewriteMode::Amend && held.old.len() != 1 {
        return Err(RewriteError::Permanent("amend requires exactly one pair"));
    }
    let ghost keys = order::sorted_set(olds(done));
    let mut pairs: Vec<RewritePair> = Vec::new();
    let m: usize = held.sorted.len();
    proof {
        order::lemma_sorted_set(olds(done));
    }
    let mut i: usize = 0;
    while i < m
        invariant
            i <= m,
            m == held.sorted@.len(),
            held.stands_for(done),
            keys == order::sorted_set(olds(done)),
            forall|x: Seq<char>| keys.contains(x) <==> olds(done).contains(x),
            pair_models(pairs@) == arranged(done).take(i as int),
        decreases m - i,
    {
        let ghost key = keys[i as int];
        assert(key == held.sorted@[i as int]@) by {
            assert(held.sorted.deep_view()[i as int] == held.sorted@[i as int]@);
        }
        assert(keys.contains(key));
        proof {
            textset::lemma_position_of(olds(done), key, 0);
            let j = choose|j: int| 0 <= j < olds(done).len() && olds(done)[j] == key;
            assert(textset::position_of(olds(done), key, 0) is Some);
            let _ = held.first@.contains_key(key);
        }
        let ghost before = pair_models(pairs@);
        match held.first.get(held.sorted[i].as_str()) {
            Some(at) => {
                let pair = RewritePair {
                    old: CommitSha::new(held.sorted[i].clone()),
                    new: CommitSha::new(held.new[*at].clone()),
                };
                assert(arranged(done)[i as int] == pair@);
                pairs.push(pair);
                assert(pair_models(pairs@) =~= before.push(pair@));
            },
            None => {
                assert(false);
            },
        }
        i += 1;
        assert(pair_models(pairs@) =~= arranged(done).take(i as int));
    }
    assert(arranged(done).take(m as int) =~= arranged(done));
    Ok((kind, pairs))
}

proof fn lemma_rows_are_full(lines: Seq<Seq<char>>, k: nat)
    requires
        rows(lines, k) is Ok,
    ensures
        forall|i: int|
            0 <= i < rows(lines, k)->Ok_0.len() ==> is_full_oid(
                (#[trigger] rows(lines, k)->Ok_0[i]).0,
            ) && is_full_oid(rows(lines, k)->Ok_0[i].1) && rows(lines, k)->Ok_0[i].0 != rows(
                lines,
                k,
            )->Ok_0[i].1 && rows(lines, k)->Ok_0[i].0.len() == rows(lines, k)->Ok_0[i].1.len(),
    decreases k,
{
    if k > 0 {
        lemma_rows_are_full(lines, (k - 1) as nat);
    }
}

/// An accepted notice names each replaced commit once, in ascending order, by
/// full names of one width, and never as its own replacement.
pub proof fn law_accepted_pairs(mode: Seq<char>, input: Seq<u8>)
    requires
        parsed_rewrite(mode, input) is Ok,
    ensures
        ({
            let pairs = parsed_rewrite(mode, input)->Ok_0.1;
            &&& order::strictly_sorted(olds(pairs))
            &&& forall|i: int|
                0 <= i < pairs.len() ==> is_full_oid((#[trigger] pairs[i]).0) && is_full_oid(
                    pairs[i].1,
                ) && pairs[i].0 != pairs[i].1 && pairs[i].0.len() == pairs[i].1.len()
        }),
{
    let lines = text::pieces(decode_utf8(input).drop_last(), '\n');
    let done = rows(lines, lines.len())->Ok_0;
    let pairs = parsed_rewrite(mode, input)->Ok_0.1;
    lemma_rows_are_full(lines, lines.len());
    let keys = order::sorted_set(olds(done));
    order::lemma_sorted_set(olds(done));
    assert(olds(pairs) =~= keys);
    assert forall|i: int| 0 <= i < pairs.len() implies is_full_oid((#[trigger] pairs[i]).0)
        && is_full_oid(pairs[i].1) && pairs[i].0 != pairs[i].1 && pairs[i].0.len()
        == pairs[i].1.len() by {
        let key = keys[i];
        assert(keys.contains(key));
        assert(olds(done).contains(key));
        textset::lemma_position_of(olds(done), key, 0);
        let j = choose|j: int| 0 <= j < olds(done).len() && olds(done)[j] == key;
        let at = textset::position_of(olds(done), key, 0)->0;
        assert(olds(done)[at] == key);
        assert(done[at].0 == key);
        assert(pairs[i] == (key, done[at].1));
    }
}

/// The lines of a notice.
pub open spec fn notice_lines(input: Seq<u8>) -> Seq<Seq<char>> {
    text::pieces(decode_utf8(input).drop_last(), '\n')
}

/// Lines, each ended by a line break.
pub open spec fn written(lines: Seq<Seq<char>>) -> Seq<char>
    decreases lines.len(),
{
    if lines.len() == 0 {
        Seq::empty()
    } else {
        written(lines.drop_last()) + lines.last() + seq!['\n']
    }
}

/// The notice that these lines make.
pub open spec fn notice(lines: Seq<Seq<char>>) -> Seq<u8> {
    encode_utf8(written(lines))
}

/// The line of a pair: the old name, a space and the new name.
pub open spec fn pair_line(pair: (Seq<char>, Seq<char>)) -> Seq<char> {
    pair.0 + " "@ + pair.1
}

/// The lines of pairs.
pub open spec fn pair_lines(pairs: Seq<(Seq<char>, Seq<char>)>) -> Seq<Seq<char>> {
    pairs.map_values(|pair: (Seq<char>, Seq<char>)| pair_line(pair))
}

/// A character that an accepted line can hold.
spec fn line_char(c: char) -> bool {
    ('0' <= c <= '9') || ('a' <= c <= 'f') || c == ' '
}

spec fn line_chars(line: Seq<char>) -> bool {
    forall|i: int| 0 <= i < line.len() ==> line_char(#[trigger] line[i])
}

/// How many characters the lines have, line breaks included.
spec fn written_len(lines: Seq<Seq<char>>) -> nat
    decreases lines.len(),
{
    if lines.len() == 0 {
        0
    } else {
        written_len(lines.drop_last()) + lines.last().len() + 1
    }
}

/// A line that is accepted is its two columns with a space between them.
pub proof fn lemma_row_is_its_line(line: Seq<char>)
    requires
        row_of(line) is Ok,
    ensures
        line == row_of(line)->Ok_0.0 + " "@ + row_of(line)->Ok_0.1,
{
    lemma_row_line(line);
}

/// An accepted line is the line of its pair.
proof fn lemma_row_line(line: Seq<char>)
    requires
        row_of(line) is Ok,
    ensures
        line == pair_line(row_of(line)->Ok_0),
        line_chars(line),
{
    let columns = text::pieces(line, ' ');
    reveal_strlit(" ");
    assert(" "@ =~= seq![' ']);
    text::lemma_pieces_rejoin(line, ' ');
    reveal_with_fuel(text::ended, 3);
    assert(columns.drop_last().drop_last() =~= Seq::empty());
    assert(columns.drop_last().last() == columns[0]);
    let a = columns[0];
    let b = columns[1];
    assert(text::ended(columns, ' ') =~= a + seq![' '] + b + seq![' ']);
    assert(line.push(' ') == a + seq![' '] + b + seq![' ']);
    assert(line =~= line.push(' ').drop_last());
    assert(line =~= a + " "@ + b);
    assert forall|i: int| 0 <= i < line.len() implies line_char(#[trigger] line[i]) by {
        if i < a.len() {
            assert(line[i] == a[i]);
        } else if i > a.len() {
            assert(line[i] == b[i - a.len() - 1]);
        }
    }
}

/// What lines make: they can be read back from it, and it is plain.
proof fn lemma_written(lines: Seq<Seq<char>>)
    requires
        lines.len() > 0,
        forall|i: int| 0 <= i < lines.len() ==> line_chars(#[trigger] lines[i]),
    ensures
        written(lines).len() == written_len(lines),
        written(lines).len() > 0,
        written(lines).last() == '\n',
        text::pieces(written(lines).drop_last(), '\n') == lines,
        forall|i: int|
            0 <= i < written(lines).len() ==> line_char(#[trigger] written(lines)[i])
                || written(lines)[i] == '\n',
    decreases lines.len(),
{
    let front = lines.drop_last();
    let last = lines.last();
    let w = written(lines);
    assert(line_chars(lines[lines.len() - 1]));
    assert forall|i: int| 0 <= i < last.len() implies last[i] != '\n' by {
        assert(line_char(last[i]));
    }
    text::lemma_one_piece(last, '\n');
    if front.len() == 0 {
        assert(written(front) =~= Seq::<char>::empty());
        assert(written_len(front) == 0);
        assert(w =~= last + seq!['\n']);
        assert(w.drop_last() =~= last);
        assert(lines =~= seq![last]);
    } else {
        assert forall|i: int| 0 <= i < front.len() implies line_chars(#[trigger] front[i]) by {
            assert(front[i] == lines[i]);
        }
        lemma_written(front);
        let head = written(front).drop_last();
        assert(w.drop_last() =~= head + seq!['\n'] + last);
        text::lemma_pieces_joined(head, last, '\n');
        assert(lines =~= front + seq![last]);
    }
    assert forall|i: int| 0 <= i < w.len() implies line_char(#[trigger] w[i]) || w[i] == '\n' by {
        let n = written(front).len();
        if i < n {
            assert(w[i] == written(front)[i]);
        } else if i < n + last.len() {
            assert(w[i] == last[i - n]);
        }
    }
}

/// Accepted rows are those of their lines, one each, and name no commit twice.
pub proof fn lemma_rows_of_lines(lines: Seq<Seq<char>>, k: nat)
    requires
        k <= lines.len(),
        rows(lines, k) is Ok,
    ensures
        rows(lines, k)->Ok_0.len() == k,
        k <= MAX_REWRITE_PAIRS,
        forall|i: int|
            0 <= i < k ==> row_of(#[trigger] lines[i]) == Ok::<(Seq<char>, Seq<char>), Seq<char>>(
                rows(lines, k)->Ok_0[i],
            ),
        forall|i: int, j: int|
            0 <= i < j < k ==> (#[trigger] rows(lines, k)->Ok_0[i]).0 != (#[trigger] rows(
                lines,
                k,
            )->Ok_0[j]).0,
    decreases k,
{
    if k > 0 {
        lemma_rows_of_lines(lines, (k - 1) as nat);
        let before = rows(lines, (k - 1) as nat)->Ok_0;
        let done = rows(lines, k)->Ok_0;
        assert forall|i: int, j: int| 0 <= i < j < k implies (#[trigger] done[i]).0 != (
        #[trigger] done[j]).0 by {
            assert(done[i] == before[i]);
            if j == k - 1 {
                assert(olds(before)[i] == before[i].0);
                assert(olds(before).contains(before[i].0));
            } else {
                assert(done[j] == before[j]);
            }
        }
    }
}

/// Lines that are rows of distinct commits are accepted.
proof fn lemma_rows_accepted(lines: Seq<Seq<char>>, k: nat)
    requires
        k <= lines.len(),
        k <= MAX_REWRITE_PAIRS,
        forall|i: int| 0 <= i < k ==> row_of(#[trigger] lines[i]) is Ok,
        forall|i: int, j: int|
            0 <= i < j < k ==> row_of(#[trigger] lines[i])->Ok_0.0 != row_of(
                #[trigger] lines[j],
            )->Ok_0.0,
    ensures
        rows(lines, k) is Ok,
    decreases k,
{
    if k > 0 {
        lemma_rows_accepted(lines, (k - 1) as nat);
        lemma_rows_of_lines(lines, (k - 1) as nat);
        let before = rows(lines, (k - 1) as nat)->Ok_0;
        let row = row_of(lines[k - 1])->Ok_0;
        if olds(before).contains(row.0) {
            let i = choose|i: int| 0 <= i < olds(before).len() && olds(before)[i] == row.0;
            assert(row_of(lines[i])->Ok_0 == before[i]);
        }
    }
}

proof fn lemma_written_len_remove(lines: Seq<Seq<char>>, j: int)
    requires
        0 <= j < lines.len(),
    ensures
        written_len(lines) == written_len(lines.remove(j)) + lines[j].len() + 1,
    decreases lines.len(),
{
    let front = lines.drop_last();
    if j == lines.len() - 1 {
        assert(lines.remove(j) =~= front);
    } else {
        lemma_written_len_remove(front, j);
        assert(lines.remove(j).drop_last() =~= front.remove(j));
        assert(lines.remove(j).last() == lines.last());
    }
}

/// The same lines, each once.
spec fn same_lines(a: Seq<Seq<char>>, b: Seq<Seq<char>>) -> bool {
    &&& a.no_duplicates()
    &&& b.no_duplicates()
    &&& forall|x: Seq<char>| #[trigger] a.contains(x) <==> b.contains(x)
}

proof fn lemma_same_lines(a: Seq<Seq<char>>, b: Seq<Seq<char>>)
    requires
        same_lines(a, b),
    ensures
        a.len() == b.len(),
        written_len(a) == written_len(b),
    decreases a.len(),
{
    if a.len() == 0 {
        if b.len() > 0 {
            assert(b.contains(b[0]));
            assert(a.contains(b[0]));
        }
    } else {
        let x = a.last();
        assert(a[a.len() - 1] == x);
        assert(a.contains(x));
        let j = choose|j: int| 0 <= j < b.len() && b[j] == x;
        let p = a.drop_last();
        let q = b.remove(j);
        assert forall|y: Seq<char>| #[trigger] p.contains(y) <==> q.contains(y) by {
            if p.contains(y) {
                let i = choose|i: int| 0 <= i < p.len() && p[i] == y;
                assert(a[i] == y);
                assert(a.contains(y));
                let m = choose|m: int| 0 <= m < b.len() && b[m] == y;
                if m < j {
                    assert(q[m] == y);
                } else {
                    assert(m != j);
                    assert(q[m - 1] == y);
                }
            }
            if q.contains(y) {
                let m = choose|m: int| 0 <= m < q.len() && q[m] == y;
                let at = if m < j {
                    m
                } else {
                    m + 1
                };
                assert(b[at] == y);
                assert(b.contains(y));
                assert(a.contains(y));
                let i = choose|i: int| 0 <= i < a.len() && a[i] == y;
                if i == a.len() - 1 {
                    assert(b[at] == b[j]);
                }
                assert(p[i] == y);
            }
        }
        lemma_same_lines(p, q);
        lemma_written_len_remove(b, j);
    }
}

/// The same lines in any order give the same pairs.
proof fn lemma_same_rows(a: Seq<Seq<char>>, b: Seq<Seq<char>>)
    requires
        rows(a, a.len()) is Ok,
        same_lines(a, b),
    ensures
        rows(b, b.len()) is Ok,
        rows(b, b.len())->Ok_0.len() == rows(a, a.len())->Ok_0.len(),
        arranged(rows(b, b.len())->Ok_0) == arranged(rows(a, a.len())->Ok_0),
{
    lemma_same_lines(a, b);
    lemma_rows_of_lines(a, a.len());
    let ra = rows(a, a.len())->Ok_0;
    assert forall|i: int| 0 <= i < b.len() implies row_of(#[trigger] b[i]) is Ok by {
        assert(b.contains(b[i]));
        assert(a.contains(b[i]));
        let m = choose|m: int| 0 <= m < a.len() && a[m] == b[i];
    }
    assert forall|i: int, j: int| 0 <= i < j < b.len() implies row_of(#[trigger] b[i])->Ok_0.0
        != row_of(#[trigger] b[j])->Ok_0.0 by {
        assert(b.contains(b[i]) && b.contains(b[j]));
        assert(a.contains(b[i]) && a.contains(b[j]));
        let m = choose|m: int| 0 <= m < a.len() && a[m] == b[i];
        let n = choose|n: int| 0 <= n < a.len() && a[n] == b[j];
        assert(m != n);
        if m < n {
            assert(ra[m].0 != ra[n].0);
        } else {
            assert(ra[n].0 != ra[m].0);
        }
    }
    lemma_rows_accepted(b, b.len());
    lemma_rows_of_lines(b, b.len());
    let rb = rows(b, b.len())->Ok_0;
    let ka = order::sorted_set(olds(ra));
    let kb = order::sorted_set(olds(rb));
    order::lemma_sorted_set(olds(ra));
    order::lemma_sorted_set(olds(rb));
    assert forall|y: Seq<char>| #[trigger] ka.contains(y) <==> kb.contains(y) by {
        if olds(ra).contains(y) {
            let m = choose|m: int| 0 <= m < olds(ra).len() && olds(ra)[m] == y;
            assert(a.contains(a[m]));
            let n = choose|n: int| 0 <= n < b.len() && b[n] == a[m];
            assert(row_of(a[m])->Ok_0 == ra[m] && row_of(b[n])->Ok_0 == rb[n]);
            assert(olds(rb)[n] == y);
        }
        if olds(rb).contains(y) {
            let m = choose|m: int| 0 <= m < olds(rb).len() && olds(rb)[m] == y;
            assert(b.contains(b[m]));
            assert(a.contains(b[m]));
            let n = choose|n: int| 0 <= n < a.len() && a[n] == b[m];
            assert(row_of(b[m])->Ok_0 == rb[m] && row_of(a[n])->Ok_0 == ra[n]);
            assert(olds(ra)[n] == y);
        }
    }
    order::lemma_strictly_sorted_unique(ka, kb);
    assert forall|i: int| 0 <= i < ka.len() implies arranged(ra)[i] == arranged(rb)[i] by {
        let key = ka[i];
        assert(ka.contains(key) && kb.contains(key));
        assert(olds(ra).contains(key) && olds(rb).contains(key));
        textset::lemma_position_of(olds(ra), key, 0);
        textset::lemma_position_of(olds(rb), key, 0);
        let some_a = choose|m: int| 0 <= m < olds(ra).len() && olds(ra)[m] == key;
        let some_b = choose|m: int| 0 <= m < olds(rb).len() && olds(rb)[m] == key;
        let m = textset::position_of(olds(ra), key, 0)->0;
        let n = textset::position_of(olds(rb), key, 0)->0;
        assert(olds(ra)[m] == key && olds(rb)[n] == key);
        assert(a.contains(a[m]));
        let q = choose|q: int| 0 <= q < b.len() && b[q] == a[m];
        assert(row_of(a[m])->Ok_0 == ra[m] && row_of(b[q])->Ok_0 == rb[q]);
        assert(rb[q].0 == rb[n].0);
        if q < n {
            assert(rb[q].0 != rb[n].0);
        } else if n < q {
            assert(rb[n].0 != rb[q].0);
        }
    }
    assert(arranged(ra) =~= arranged(rb));
}

/// Accepted lines are plain and distinct.
proof fn lemma_accepted_lines(lines: Seq<Seq<char>>)
    requires
        rows(lines, lines.len()) is Ok,
    ensures
        lines.no_duplicates(),
        forall|i: int| 0 <= i < lines.len() ==> line_chars(#[trigger] lines[i]),
{
    let done = rows(lines, lines.len())->Ok_0;
    lemma_rows_of_lines(lines, lines.len());
    assert forall|i: int, j: int| 0 <= i < lines.len() && 0 <= j < lines.len() && i != j implies lines[i]
        != lines[j] by {
        assert(row_of(lines[i])->Ok_0 == done[i] && row_of(lines[j])->Ok_0 == done[j]);
        if i < j {
            assert(done[i].0 != done[j].0);
        } else {
            assert(done[j].0 != done[i].0);
        }
    }
    assert forall|i: int| 0 <= i < lines.len() implies line_chars(#[trigger] lines[i]) by {
        lemma_row_line(lines[i]);
    }
}

/// A text has no fewer bytes than its plain lines have characters.
proof fn lemma_lines_fit(text: Seq<char>)
    requires
        text.len() > 0,
        forall|i: int|
            0 <= i < text::pieces(text.drop_last(), '\n').len() ==> line_chars(
                #[trigger] text::pieces(text.drop_last(), '\n')[i],
            ),
    ensures
        text::pieces(text.drop_last(), '\n').len() > 0,
        written_len(text::pieces(text.drop_last(), '\n')) <= encode_utf8(text).len(),
{
    let body = text.drop_last();
    let lines = text::pieces(body, '\n');
    text::lemma_pieces_rejoin(body, '\n');
    lemma_ended_is_written(lines);
    lemma_written(lines);
    let w = written(lines);
    assert(w == body.push('\n'));
    assert forall|i: int| 0 <= i < body.len() implies '\0' <= #[trigger] body[i] <= '\u{7f}' by {
        assert(w[i] == body[i]);
    }
    assert(is_ascii_chars(body));
    is_ascii_chars_encode_utf8(body);
    text::lemma_encode_joined(body, seq![text.last()]);
    assert(body + seq![text.last()] =~= text);
    lemma_some_bytes(seq![text.last()]);
}

proof fn lemma_some_bytes(text: Seq<char>)
    requires
        text.len() > 0,
    ensures
        encode_utf8(text).len() > 0,
{
    encode_utf8_first_scalar(text);
}

/// The lines of an accepted notice: plain, distinct, and no longer than it.
proof fn lemma_notice_lines(mode: Seq<char>, input: Seq<u8>)
    requires
        parsed_rewrite(mode, input) is Ok,
    ensures
        ({
            let lines = notice_lines(input);
            &&& lines.len() > 0
            &&& lines.no_duplicates()
            &&& rows(lines, lines.len()) is Ok
            &&& forall|i: int| 0 <= i < lines.len() ==> line_chars(#[trigger] lines[i])
            &&& written_len(lines) <= MAX_REWRITE_BYTES
        }),
{
    let text = decode_utf8(input);
    lemma_accepted_lines(notice_lines(input));
    decode_utf8_encode_utf8(input);
    assert(text.len() > 0) by {
        if text.len() == 0 {
            assert(encode_utf8(text).len() == 0);
        }
    }
    lemma_lines_fit(text);
}

proof fn lemma_ended_is_written(lines: Seq<Seq<char>>)
    ensures
        text::ended(lines, '\n') == written(lines),
    decreases lines.len(),
{
    if lines.len() > 0 {
        lemma_ended_is_written(lines.drop_last());
    }
}

/// A notice of the same lines is read as the same pairs.
proof fn lemma_same_notice(mode: Seq<char>, input: Seq<u8>, lines: Seq<Seq<char>>)
    requires
        parsed_rewrite(mode, input) is Ok,
        same_lines(notice_lines(input), lines),
    ensures
        parsed_rewrite(mode, notice(lines)) == parsed_rewrite(mode, input),
{
    let old_lines = notice_lines(input);
    lemma_notice_lines(mode, input);
    lemma_same_lines(old_lines, lines);
    lemma_same_rows(old_lines, lines);
    assert forall|i: int| 0 <= i < lines.len() implies line_chars(#[trigger] lines[i]) by {
        assert(lines.contains(lines[i]));
        assert(old_lines.contains(lines[i]));
        let m = choose|m: int| 0 <= m < old_lines.len() && old_lines[m] == lines[i];
        assert(line_chars(old_lines[m]));
    }
    lemma_written(lines);
    let w = written(lines);
    let bytes = notice(lines);
    assert(is_ascii_chars(w)) by {
        assert forall|i: int| 0 <= i < w.len() implies '\0' <= #[trigger] w[i] <= '\u{7f}' by {}
    }
    is_ascii_chars_encode_utf8(w);
    encode_utf8_valid_utf8(w);
    encode_utf8_decode_utf8(w);
    assert forall|i: int| 0 <= i < bytes.len() implies bytes[i] != 13 && bytes[i] != 0 by {
        assert(bytes[i] == w[i] as u8);
        assert(line_char(w[i]) || w[i] == '\n');
    }
    assert(bytes.last() == 10u8) by {
        assert(bytes[bytes.len() - 1] == w[w.len() - 1] as u8);
    }
    assert(!forbidden_input(bytes));
    assert(notice_lines(bytes) == lines);
}

/// The order of the lines of a notice means nothing: the lines of an accepted
/// notice, in any other order, give the same pairs.
pub proof fn law_line_order_means_nothing(
    mode: Seq<char>,
    input: Seq<u8>,
    lines: Seq<Seq<char>>,
)
    requires
        parsed_rewrite(mode, input) is Ok,
        lines.to_multiset() == notice_lines(input).to_multiset(),
    ensures
        parsed_rewrite(mode, notice(lines)) == parsed_rewrite(mode, input),
{
    let held = notice_lines(input);
    lemma_notice_lines(mode, input);
    held.to_multiset_ensures();
    lines.to_multiset_ensures();
    held.lemma_multiset_has_no_duplicates();
    lines.lemma_multiset_has_no_duplicates_conv();
    assert forall|x: Seq<char>| #[trigger] held.contains(x) <==> lines.contains(x) by {
        assert(held.contains(x) <==> held.to_multiset().count(x) > 0);
        assert(lines.contains(x) <==> lines.to_multiset().count(x) > 0);
    }
    lemma_same_notice(mode, input, lines);
}

/// The pairs of an accepted notice, written out as lines, are a notice of the
/// same pairs.
pub proof fn law_pairs_written_out_are_read_back(mode: Seq<char>, input: Seq<u8>)
    requires
        parsed_rewrite(mode, input) is Ok,
    ensures
        parsed_rewrite(mode, notice(pair_lines(parsed_rewrite(mode, input)->Ok_0.1)))
            == parsed_rewrite(mode, input),
{
    let held = notice_lines(input);
    let done = rows(held, held.len())->Ok_0;
    let pairs = parsed_rewrite(mode, input)->Ok_0.1;
    let lines = pair_lines(pairs);
    lemma_notice_lines(mode, input);
    lemma_rows_of_lines(held, held.len());
    law_accepted_pairs(mode, input);
    let keys = order::sorted_set(olds(done));
    order::lemma_sorted_set(olds(done));
    assert(pairs == arranged(done));
    assert forall|i: int| 0 <= i < pairs.len() implies held.contains(#[trigger] lines[i]) && row_of(
        lines[i],
    ) == Ok::<(Seq<char>, Seq<char>), Seq<char>>(pairs[i]) && pairs[i].0 == keys[i] by {
        let key = keys[i];
        assert(keys.contains(key));
        textset::lemma_position_of(olds(done), key, 0);
        let some = choose|m: int| 0 <= m < olds(done).len() && olds(done)[m] == key;
        let m = textset::position_of(olds(done), key, 0)->0;
        assert(olds(done)[m] == key);
        assert(pairs[i] == done[m]);
        assert(row_of(held[m])->Ok_0 == done[m]);
        lemma_row_line(held[m]);
        assert(lines[i] == pair_line(pairs[i]));
        assert(held[m] == lines[i]);
    }
    assert forall|i: int, j: int| 0 <= i < lines.len() && 0 <= j < lines.len() && i != j implies lines[i]
        != lines[j] by {
        if i < j {
            order::lemma_text_order(keys[i], keys[j]);
            assert(order::text_lt(keys[i], keys[j]));
        } else {
            order::lemma_text_order(keys[j], keys[i]);
            assert(order::text_lt(keys[j], keys[i]));
        }
        assert(pairs[i].0 == keys[i] && pairs[j].0 == keys[j]);
        assert(row_of(lines[i])->Ok_0 == pairs[i] && row_of(lines[j])->Ok_0 == pairs[j]);
    }
    assert forall|x: Seq<char>| #[trigger] held.contains(x) <==> lines.contains(x) by {
        if held.contains(x) {
            let m = choose|m: int| 0 <= m < held.len() && held[m] == x;
            assert(row_of(held[m])->Ok_0 == done[m]);
            lemma_row_line(held[m]);
            assert(olds(done)[m] == done[m].0);
            assert(olds(done).contains(done[m].0));
            assert(keys.contains(done[m].0));
            let i = choose|i: int| 0 <= i < keys.len() && keys[i] == done[m].0;
            textset::lemma_position_of(olds(done), keys[i], 0);
            let n = textset::position_of(olds(done), keys[i], 0)->0;
            assert(olds(done)[n] == done[n].0);
            if n < m {
                assert(done[n].0 != done[m].0);
            } else if m < n {
                assert(done[m].0 != done[n].0);
            }
            assert(pairs[i] == done[m]);
            assert(lines[i] == pair_line(pairs[i]));
            assert(lines[i] == x);
        }
        if lines.contains(x) {
            let i = choose|i: int| 0 <= i < lines.len() && lines[i] == x;
            assert(held.contains(lines[i]));
        }
    }
    lemma_same_notice(mode, input, lines);
}

/// The source that a snapshot stands for.
pub open spec fn snapshot_source(s: SnapshotModel) -> Seq<char> {
    match s {
        SnapshotModel::Legacy { interaction, commit, .. } => derivation::legacy_text(
            interaction,
            commit,
        ),
        SnapshotModel::Event { event_id, .. } => event_id,
    }
}

/// The source that a snapshot stands for.
pub fn snapshot_source_id(snapshot: &SourceSnapshot) -> (r: String)
    ensures
        r@ == snapshot_source(snapshot@),
{
    match snapshot {
        SourceSnapshot::Legacy { interaction, commit, .. } => {
            let mut r = glue3("legacy:", interaction.as_str(), ":");
            r.append(commit.as_str());
            r
        },
        SourceSnapshot::Event { event_id, .. } => event_id.clone(),
    }
}

/// The event under the identity that its contents give it.
pub open spec fn identified(m: EventModel) -> EventModel {
    EventModel { event_id: models::event_identity(m), ..m }
}

/// The event that a rewrite derives from one source of an interaction.
pub open spec fn rewrite_event(
    pair: (Seq<char>, Seq<char>),
    interaction: InteractionId,
    source: Seq<char>,
) -> EventModel {
    identified(
        EventModel {
            event_id: Seq::empty(),
            interaction_id: interaction,
            target_commit: pair.1,
            relation: DerivationRelation::RewriteExact,
            evidence: Evidence { version: 1, kind: EvidenceKind::LocallyObserved },
            origin: DerivationOrigin::LocalHook,
            sources: seq![source],
            old_oid: Some(pair.0),
            new_oid: Some(pair.1),
            range_id: None,
            linked_by: None,
        },
    )
}

fn derive_rewrite(pair: &RewritePair, interaction: &InteractionId, source: String) -> (r:
    DerivationEvent)
    ensures
        r@ == rewrite_event(pair@, *interaction, source@),
{
    let ghost named = source@;
    let mut sources: Vec<String> = Vec::new();
    sources.push(source);
    assert(sources.deep_view() =~= seq![named]);
    let mut event = DerivationEvent {
        event_id: String::new(),
        interaction_id: *interaction,
        target_commit: pair.new.clone(),
        relation: DerivationRelation::RewriteExact,
        evidence: Evidence { version: 1, kind: EvidenceKind::LocallyObserved },
        origin: DerivationOrigin::LocalHook,
        source_event_ids: sources,
        old_oid: Some(pair.old.clone()),
        new_oid: Some(pair.new.clone()),
        range_id: None,
        linked_by: None,
    };
    assert(event.event_id@ =~= Seq::<char>::empty());
    let id = event.canonical_id();
    event.event_id = id;
    event
}

/// An interaction on a replaced commit, as the store has it.
pub struct RewriteSource {
    pub interaction: InteractionId,
    /// Whether this repository itself observed a source of the link.
    pub observed: bool,
    pub snapshots: Vec<SourceSnapshot>,
}

/// The contents of [`RewriteSource`].
#[verifier::ext_equal]
pub struct RewriteSourceModel {
    pub interaction: InteractionId,
    pub observed: bool,
    pub snapshots: Seq<SnapshotModel>,
}

/// The contents of snapshots.
pub open spec fn snapshot_models(s: Seq<SourceSnapshot>) -> Seq<SnapshotModel> {
    s.map_values(|x: SourceSnapshot| x@)
}

impl View for RewriteSource {
    type V = RewriteSourceModel;

    open spec fn view(&self) -> RewriteSourceModel {
        RewriteSourceModel {
            interaction: self.interaction,
            observed: self.observed,
            snapshots: snapshot_models(self.snapshots@),
        }
    }
}

/// A replaced commit with what the repository and the store know of it.
pub struct RewriteFacts {
    pub pair: RewritePair,
    /// Whether the new commit is the checked-out one or an ancestor of it.
    pub reachable: bool,
    pub sources: Vec<RewriteSource>,
}

/// The contents of [`RewriteFacts`].
#[verifier::ext_equal]
pub struct RewriteFactsModel {
    pub pair: (Seq<char>, Seq<char>),
    pub reachable: bool,
    pub sources: Seq<RewriteSourceModel>,
}

impl View for RewriteFacts {
    type V = RewriteFactsModel;

    open spec fn view(&self) -> RewriteFactsModel {
        RewriteFactsModel {
            pair: self.pair@,
            reachable: self.reachable,
            sources: self.sources@.map_values(|x: RewriteSource| x@),
        }
    }
}

/// The contents of facts.
pub open spec fn facts_models(s: Seq<RewriteFacts>) -> Seq<RewriteFactsModel> {
    s.map_values(|x: RewriteFacts| x@)
}

/// The facts are those of the notice: one for each commit that it says was
/// replaced, in the same order. Of a notice that is at fault there are none to
/// have.
pub open spec fn are_of_notice(
    facts: Seq<RewriteFactsModel>,
    mode: Seq<char>,
    raw: Seq<u8>,
) -> bool {
    parsed_rewrite(mode, raw) is Ok ==> facts.map_values(|f: RewriteFactsModel| f.pair)
        == parsed_rewrite(mode, raw)->Ok_0.1
}

/// The events that the snapshots of one interaction give.
pub open spec fn source_events(
    pair: (Seq<char>, Seq<char>),
    interaction: InteractionId,
    snapshots: Seq<SnapshotModel>,
) -> Seq<EventModel> {
    snapshots.map_values(|s: SnapshotModel| rewrite_event(pair, interaction, snapshot_source(s)))
}

/// The events that the first `k` interactions on a replaced commit give: those
/// of the interactions that this repository observed.
pub open spec fn pair_events(
    pair: (Seq<char>, Seq<char>),
    sources: Seq<RewriteSourceModel>,
    k: nat,
) -> Seq<EventModel>
    decreases k,
{
    if k == 0 {
        Seq::empty()
    } else if !sources[k - 1].observed {
        pair_events(pair, sources, (k - 1) as nat)
    } else {
        pair_events(pair, sources, (k - 1) as nat) + source_events(
            pair,
            sources[k - 1].interaction,
            sources[k - 1].snapshots,
        )
    }
}

/// The snapshots of the first `k` interactions that this repository observed.
pub open spec fn pair_snapshots(sources: Seq<RewriteSourceModel>, k: nat) -> Seq<SnapshotModel>
    decreases k,
{
    if k == 0 {
        Seq::empty()
    } else if !sources[k - 1].observed {
        pair_snapshots(sources, (k - 1) as nat)
    } else {
        pair_snapshots(sources, (k - 1) as nat) + sources[k - 1].snapshots
    }
}

/// The events of the first `k` replaced commits.
pub open spec fn batch_events(facts: Seq<RewriteFactsModel>, k: nat) -> Seq<EventModel>
    decreases k,
{
    if k == 0 {
        Seq::empty()
    } else {
        batch_events(facts, (k - 1) as nat) + pair_events(
            facts[k - 1].pair,
            facts[k - 1].sources,
            facts[k - 1].sources.len(),
        )
    }
}

/// The snapshots of the first `k` replaced commits.
pub open spec fn batch_snapshots(facts: Seq<RewriteFactsModel>, k: nat) -> Seq<SnapshotModel>
    decreases k,
{
    if k == 0 {
        Seq::empty()
    } else {
        batch_snapshots(facts, (k - 1) as nat) + pair_snapshots(
            facts[k - 1].sources,
            facts[k - 1].sources.len(),
        )
    }
}

/// What one notice asks of the store: its identity, the events that it derives
/// and the snapshots that must still hold when they are written.
pub struct RewriteBatch {
    pub batch_id: String,
    pub mode: RewriteMode,
    pub input_hash: String,
    pub events: Vec<DerivationEvent>,
    pub snapshots: Vec<SourceSnapshot>,
}

/// The identity of a batch.
pub open spec fn batch_identity(mode: Seq<char>, raw: Seq<u8>) -> Seq<char> {
    digest::digest_text(encode_utf8("cvc.rewrite-batch/v1\0"@) + encode_utf8(mode) + raw)
}

impl RewriteBatch {
    /// The batch is the one of this notice and these facts.
    pub open spec fn answers(
        self,
        kind: RewriteMode,
        raw: Seq<u8>,
        facts: Seq<RewriteFactsModel>,
    ) -> bool {
        &&& self.batch_id@ == batch_identity(kind.name(), raw)
        &&& self.mode == kind
        &&& self.input_hash@ == digest::digest_text(raw)
        &&& derivation::models(self.events@) == batch_events(facts, facts.len())
        &&& snapshot_models(self.snapshots@) == batch_snapshots(facts, facts.len())
    }
}

fn digest_of(prefix: &str, mode: &str, raw: &[u8]) -> (r: String)
    ensures
        r@ == digest::digest_text(encode_utf8(prefix@) + encode_utf8(mode@) + raw@),
        digest::is_lower_hex(r@, 64),
{
    let mut h: Vec<u8> = Vec::new();
    put_bytes(&mut h, prefix.as_bytes());
    put_bytes(&mut h, mode.as_bytes());
    put_bytes(&mut h, raw);
    assert(h@ =~= encode_utf8(prefix@) + encode_utf8(mode@) + raw@);
    hex_digest(h.as_slice())
}

fn add_pair(
    facts: &RewriteFacts,
    events: &mut Vec<DerivationEvent>,
    snapshots: &mut Vec<SourceSnapshot>,
)
    ensures
        derivation::models(final(events)@) == derivation::models(old(events)@) + pair_events(
            facts@.pair,
            facts@.sources,
            facts@.sources.len(),
        ),
        snapshot_models(final(snapshots)@) == snapshot_models(old(snapshots)@) + pair_snapshots(
            facts@.sources,
            facts@.sources.len(),
        ),
{
    let ghost pair = facts@.pair;
    let ghost all = facts@.sources;
    let ghost events0 = derivation::models(events@);
    let ghost snapshots0 = snapshot_models(snapshots@);
    let n: usize = facts.sources.len();
    let mut j: usize = 0;
    assert(events0 + pair_events(pair, all, 0) =~= events0);
    assert(snapshots0 + pair_snapshots(all, 0) =~= snapshots0);
    while j < n
        invariant
            j <= n,
            n == facts.sources@.len(),
            all == facts@.sources,
            pair == facts@.pair,
            derivation::models(events@) == events0 + pair_events(pair, all, j as nat),
            snapshot_models(snapshots@) == snapshots0 + pair_snapshots(all, j as nat),
        decreases n - j,
    {
        let source = &facts.sources[j];
        assert(all[j as int] == source@);
        if source.observed {
            let ghost events1 = derivation::models(events@);
            let ghost snapshots1 = snapshot_models(snapshots@);
            let ghost held = snapshot_models(source.snapshots@);
            let ghost made = source_events(pair, source.interaction, held);
            let m: usize = source.snapshots.len();
            let mut i: usize = 0;
            assert(events1 + made.take(0) =~= events1);
            assert(snapshots1 + held.take(0) =~= snapshots1);
            while i < m
                invariant
                    i <= m,
                    m == source.snapshots@.len(),
                    pair == facts.pair@,
                    held == snapshot_models(source.snapshots@),
                    made == source_events(pair, source.interaction, held),
                    derivation::models(events@) == events1 + made.take(i as int),
                    snapshot_models(snapshots@) == snapshots1 + held.take(i as int),
                decreases m - i,
            {
                let ghost before = derivation::models(events@);
                let ghost kept = snapshot_models(snapshots@);
                let snapshot = &source.snapshots[i];
                let event = derive_rewrite(
                    &facts.pair,
                    &source.interaction,
                    snapshot_source_id(snapshot),
                );
                assert(held[i as int] == snapshot@);
                assert(made[i as int] == event@);
                events.push(event);
                snapshots.push(snapshot.clone());
                assert(derivation::models(events@) =~= before.push(made[i as int]));
                assert(snapshot_models(snapshots@) =~= kept.push(held[i as int]));
                i += 1;
                assert(events1 + made.take(i as int) =~= before.push(made[i - 1]));
                assert(snapshots1 + held.take(i as int) =~= kept.push(held[i - 1]));
            }
            assert(made.take(m as int) =~= made);
            assert(held.take(m as int) =~= held);
            assert(events0 + pair_events(pair, all, (j + 1) as nat) =~= events1 + made);
            assert(snapshots0 + pair_snapshots(all, (j + 1) as nat) =~= snapshots1 + held);
        }
        j += 1;
    }
}

fn derive_batch(kind: RewriteMode, raw: &[u8], facts: &Vec<RewriteFacts>) -> (r: RewriteBatch)
    ensures
        r.answers(kind, raw@, facts_models(facts@)),
{
    let ghost all = facts_models(facts@);
    let mut events: Vec<DerivationEvent> = Vec::new();
    let mut snapshots: Vec<SourceSnapshot> = Vec::new();
    assert(derivation::models(events@) =~= Seq::<EventModel>::empty());
    assert(snapshot_models(snapshots@) =~= Seq::<SnapshotModel>::empty());
    let n: usize = facts.len();
    let mut k: usize = 0;
    while k < n
        invariant
            k <= n,
            n == facts@.len(),
            all == facts_models(facts@),
            derivation::models(events@) == batch_events(all, k as nat),
            snapshot_models(snapshots@) == batch_snapshots(all, k as nat),
        decreases n - k,
    {
        assert(all[k as int] == facts@[k as int]@);
        add_pair(&facts[k], &mut events, &mut snapshots);
        k += 1;
    }
    RewriteBatch {
        batch_id: digest_of("cvc.rewrite-batch/v1\0", kind.as_str(), raw),
        mode: kind,
        input_hash: hex_digest(raw),
        events,
        snapshots,
    }
}

/// Derives the batch of a notice whose reachability was settled before.
pub fn apply_replay(mode: &str, raw: &[u8], facts: &Vec<RewriteFacts>) -> (r: Result<
    RewriteBatch,
    RewriteError,
>)
    requires
        are_of_notice(facts_models(facts@), mode@, raw@),
    ensures
        match parsed_rewrite(mode@, raw@) {
            Err(reason) => r matches Err(e) && rejects(e, reason),
            Ok(found) => r matches Ok(batch) && batch.answers(
                found.0,
                raw@,
                facts_models(facts@),
            ),
        },
{
    match parse(mode, raw) {
        Err(e) => Err(e),
        Ok((kind, _)) => Ok(derive_batch(kind, raw, facts)),
    }
}

/// Every new commit is the checked-out one or an ancestor of it.
pub open spec fn all_reachable(facts: Seq<RewriteFactsModel>) -> bool {
    forall|i: int| 0 <= i < facts.len() ==> (#[trigger] facts[i]).reachable
}

proof fn lemma_all_reachable(facts: Seq<RewriteFacts>)
    ensures
        all_reachable(facts_models(facts)) <==> forall|i: int|
            0 <= i < facts.len() ==> (#[trigger] facts[i]).reachable,
{
    let all = facts_models(facts);
    assert forall|i: int| 0 <= i < facts.len() implies all[i].reachable
        == (#[trigger] facts[i]).reachable by {}
    if all_reachable(all) {
        assert forall|i: int| 0 <= i < facts.len() implies (#[trigger] facts[i]).reachable by {
            assert(all[i].reachable);
        }
    }
}

fn check_reachable(facts: &Vec<RewriteFacts>) -> (r: Result<(), RewriteError>)
    ensures
        r is Ok <==> all_reachable(facts_models(facts@)),
        r matches Err(e) ==> rejects(e, "new commit is not reachable from HEAD"@),
{
    let ghost all = facts_models(facts@);
    let n: usize = facts.len();
    let mut i: usize = 0;
    while i < n
        invariant
            i <= n,
            n == facts@.len(),
            all == facts_models(facts@),
            forall|k: int| 0 <= k < i ==> (#[trigger] all[k]).reachable,
        decreases n - i,
    {
        assert(all[i as int] == facts@[i as int]@);
        if !facts[i].reachable {
            assert(!all[i as int].reachable);
            return Err(RewriteError::Permanent("new commit is not reachable from HEAD"));
        }
        i += 1;
    }
    Ok(())
}

/// Validates a first delivery against the commit checked out when it came.
/// Replays do not use this check: the branch may have been switched since.
pub fn validate_initial_delivery(mode: &str, raw: &[u8], facts: &Vec<RewriteFacts>) -> (r: Result<
    (),
    RewriteError,
>)
    requires
        are_of_notice(facts_models(facts@), mode@, raw@),
    ensures
        match parsed_rewrite(mode@, raw@) {
            Err(reason) => r matches Err(e) && rejects(e, reason),
            Ok(_) => if all_reachable(facts_models(facts@)) {
                r is Ok
            } else {
                r matches Err(e) && rejects(e, "new commit is not reachable from HEAD"@)
            },
        },
        r is Ok <==> parsed_rewrite(mode@, raw@) is Ok && forall|i: int|
            0 <= i < facts@.len() ==> (#[trigger] facts@[i]).reachable,
{
    proof {
        lemma_all_reachable(facts@);
    }
    match parse(mode, raw) {
        Err(e) => Err(e),
        Ok(_) => check_reachable(facts),
    }
}

/// Derives the batch of a first delivery.
pub fn apply(mode: &str, raw: &[u8], facts: &Vec<RewriteFacts>) -> (r: Result<
    RewriteBatch,
    RewriteError,
>)
    requires
        are_of_notice(facts_models(facts@), mode@, raw@),
    ensures
        match parsed_rewrite(mode@, raw@) {
            Err(reason) => r matches Err(e) && rejects(e, reason),
            Ok(found) => if all_reachable(facts_models(facts@)) {
                r matches Ok(batch) && batch.answers(found.0, raw@, facts_models(facts@))
            } else {
                r matches Err(e) && rejects(e, "new commit is not reachable from HEAD"@)
            },
        },
        r is Ok <==> parsed_rewrite(mode@, raw@) is Ok && forall|i: int|
            0 <= i < facts@.len() ==> (#[trigger] facts@[i]).reachable,
{
    proof {
        lemma_all_reachable(facts@);
    }
    match parse(mode, raw) {
        Err(e) => Err(e),
        Ok((kind, _)) => match check_reachable(facts) {
            Err(e) => Err(e),
            Ok(()) => Ok(derive_batch(kind, raw, facts)),
        },
    }
}

/// The key under which the inbox holds a notice.
pub open spec fn inbox_key(mode: Seq<char>, raw: Seq<u8>) -> Seq<char> {
    digest::digest_text(encode_utf8("cvc.rewrite-inbox/v1\0"@) + encode_utf8(mode) + raw)
}

/// The name of the inbox file of a notice.
pub fn inbox_file_name(mode: &str, raw: &[u8]) -> (r: String)
    ensures
        r@ == inbox_key(mode@, raw@) + ".json"@,
{
    let key = digest_of("cvc.rewrite-inbox/v1\0", mode, raw);
    glue(key.as_str(), ".json")
}

/// The name that the inbox file of a notice has until it is complete.
pub fn inbox_temporary_name(mode: &str, raw: &[u8]) -> (r: String)
    ensures
        r@ == "."@ + inbox_key(mode@, raw@) + ".tmp"@,
{
    let key = digest_of("cvc.rewrite-inbox/v1\0", mode, raw);
    glue3(".", key.as_str(), ".tmp")
}

/// The bytes of an inbox file: the mode, a line break, the notice.
pub open spec fn framed(mode: Seq<char>, raw: Seq<u8>) -> Seq<u8> {
    encode_utf8(mode) + seq![10u8] + raw
}

/// The bytes that an inbox file holds for a notice.
pub fn frame(mode: &str, raw: &[u8]) -> (r: Vec<u8>)
    ensures
        r@ == framed(mode@, raw@),
{
    let mut out: Vec<u8> = Vec::new();
    put_bytes(&mut out, mode.as_bytes());
    out.push(10);
    put_bytes(&mut out, raw);
    assert(out@ =~= framed(mode@, raw@));
    out
}

/// The position of the first line break at or behind `from`, or the end.
pub open spec fn line_end(data: Seq<u8>, from: int) -> int
    decreases data.len() - from,
{
    if from < 0 || from >= data.len() || data[from] == 10 {
        from
    } else {
        line_end(data, from + 1)
    }
}

/// The mode and the notice in an inbox file.
pub open spec fn unframed(data: Seq<u8>) -> Result<(Seq<char>, Seq<u8>), Seq<char>> {
    let at = line_end(data, 0);
    if data.len() > MAX_REWRITE_BYTES + 32 {
        Err("unsafe inbox"@)
    } else if at >= data.len() {
        Err("bad inbox"@)
    } else if !valid_utf8(data.subrange(0, at)) {
        Err("bad inbox mode"@)
    } else {
        Ok((decode_utf8(data.subrange(0, at)), data.subrange(at + 1, data.len() as int)))
    }
}

/// Takes the mode and the notice out of an inbox file.
pub fn unframe(data: &[u8]) -> (r: Result<(String, Vec<u8>), RewriteError>)
    ensures
        match r {
            Ok(found) => unframed(data@) == Ok::<(Seq<char>, Seq<u8>), Seq<char>>(
                (found.0@, found.1@),
            ),
            Err(e) => unframed(data@) is Err && rejects(e, unframed(data@)->Err_0),
        },
{
    let n: usize = data.len();
    if n > MAX_REWRITE_BYTES + 32 {
        return Err(RewriteError::Permanent("unsafe inbox"));
    }
    let mut at: usize = 0;
    let mut head: Vec<u8> = Vec::new();
    while at < n && data[at] != 10
        invariant
            at <= n,
            n == data@.len(),
            line_end(data@, 0) == line_end(data@, at as int),
            head@ == data@.subrange(0, at as int),
        decreases n - at,
    {
        head.push(data[at]);
        at += 1;
        assert(head@ =~= data@.subrange(0, at as int));
    }
    if at == n {
        return Err(RewriteError::Permanent("bad inbox"));
    }
    let mode = match string_from_bytes(head) {
        None => {
            return Err(RewriteError::Permanent("bad inbox mode"));
        },
        Some(mode) => mode,
    };
    let mut raw: Vec<u8> = Vec::new();
    let mut i: usize = at + 1;
    while i < n
        invariant
            at < i <= n,
            n == data@.len(),
            raw@ == data@.subrange(at + 1, i as int),
        decreases n - i,
    {
        raw.push(data[i]);
        i += 1;
        assert(raw@ =~= data@.subrange(at + 1, i as int));
    }
    Ok((mode, raw))
}

proof fn lemma_line_end(data: Seq<u8>, from: int, at: int)
    requires
        0 <= from <= at < data.len(),
        data[at] == 10,
        forall|i: int| from <= i < at ==> data[i] != 10,
    ensures
        line_end(data, from) == at,
    decreases at - from,
{
    if from < at {
        lemma_line_end(data, from + 1, at);
    }
}

/// An inbox file gives back the mode and the notice it was written for.
pub proof fn law_inbox_round_trip(kind: RewriteMode, raw: Seq<u8>)
    requires
        raw.len() <= MAX_REWRITE_BYTES,
    ensures
        unframed(framed(kind.name(), raw)) == Ok::<(Seq<char>, Seq<u8>), Seq<char>>(
            (kind.name(), raw),
        ),
{
    reveal_strlit("amend");
    reveal_strlit("rebase");
    let name = kind.name();
    let head = encode_utf8(name);
    let data = framed(name, raw);
    assert(is_ascii_chars(name));
    is_ascii_chars_encode_utf8(name);
    encode_utf8_valid_utf8(name);
    encode_utf8_decode_utf8(name);
    assert(head.len() == name.len());
    assert forall|i: int| 0 <= i < head.len() implies data[i] != 10 by {
        assert(data[i] == head[i]);
        assert(head[i] == name[i] as u8);
    }
    lemma_line_end(data, 0, head.len() as int);
    assert(data.subrange(0, head.len() as int) =~= head);
    assert(data.subrange(head.len() as int + 1, data.len() as int) =~= raw);
}

/// A notice that could be written to the inbox is read back as it was, and
/// parses to the same pairs.
pub proof fn law_persisted_notice_is_replayed(mode: Seq<char>, raw: Seq<u8>)
    requires
        parsed_rewrite(mode, raw) is Ok,
    ensures
        unframed(framed(mode, raw)) == Ok::<(Seq<char>, Seq<u8>), Seq<char>>((mode, raw)),
{
    law_inbox_round_trip(mode_of(mode)->0, raw);
}

/// The name of an unfinished inbox file.
pub open spec fn temporary_name(name: Seq<char>) -> bool {
    text::has_prefix(name, "."@) && text::has_suffix(name, ".tmp"@)
}

/// Whether an inbox entry is an unfinished file that was abandoned: its age, if
/// it is known, is more than an hour.
pub fn is_stale_temporary(name: &str, age: Option<(u64, u32)>) -> (r: bool)
    ensures
        r == (temporary_name(name@) && (age matches Some(a) && (a.0 > STALE_TEMPORARY_SECS || (a.0
            == STALE_TEMPORARY_SECS && a.1 > 0)))),
{
    if !starts_with(name, ".") || !ends_with(name, ".tmp") {
        return false;
    }
    match age {
        Some((secs, nanos)) => secs > STALE_TEMPORARY_SECS || (secs == STALE_TEMPORARY_SECS && nanos
            > 0),
        None => false,
    }
}

/// The name of a complete inbox file: something, then `.json`.
pub open spec fn active_name(name: Seq<char>) -> bool {
    text::has_suffix(name, ".json"@) && name.len() > 5
}

/// Whether an inbox entry is a complete file.
pub fn is_active_entry(name: &str) -> (r: bool)
    ensures
        r == active_name(name@),
{
    ends_with(name, ".json") && chars_of(name).len() > 5
}

/// The sum of file lengths.
pub open spec fn total(lengths: Seq<u64>) -> int
    decreases lengths.len(),
{
    if lengths.len() == 0 {
        0
    } else {
        total(lengths.drop_last()) + lengths.last()
    }
}

/// Adds up file lengths; a sum that no `u64` can hold becomes the greatest one.
fn capped_total(lengths: &Vec<u64>) -> (r: u64)
    ensures
        r == if total(lengths@) > u64::MAX {
            u64::MAX as int
        } else {
            total(lengths@)
        },
{
    let n: usize = lengths.len();
    let mut sum: u64 = 0;
    let mut i: usize = 0;
    assert(lengths@.take(0) =~= Seq::<u64>::empty());
    while i < n
        invariant
            i <= n,
            n == lengths@.len(),
            total(lengths@.take(i as int)) >= 0,
            sum == if total(lengths@.take(i as int)) > u64::MAX {
                u64::MAX as int
            } else {
                total(lengths@.take(i as int))
            },
        decreases n - i,
    {
        assert(lengths@.take(i + 1).drop_last() =~= lengths@.take(i as int));
        assert(lengths@.take(i + 1).last() == lengths@[i as int]);
        sum = sum.saturating_add(lengths[i]);
        i += 1;
    }
    assert(lengths@.take(n as int) =~= lengths@);
    sum
}

/// What to do with a notice on its way into the inbox.
#[derive(Debug, Clone, Copy, PartialEq, Eq, Structural)]
pub enum Admission {
    /// The inbox holds this very notice.
    AlreadyHeld,
    /// The notice is to be written.
    Write,
}

/// Decides on a notice whose file the inbox holds: the same bytes are a replay,
/// others cannot have the same key. A full inbox still accepts an exact replay.
pub fn admit_existing(held: &[u8], intended: &[u8]) -> (r: Result<Admission, RewriteError>)
    ensures
        r is Ok <==> held@ == intended@,
        r matches Ok(a) ==> a == Admission::AlreadyHeld,
        r matches Err(e) ==> rejects(e, "inbox identity collision"@),
{
    if bytes_equal(held, intended) {
        Ok(Admission::AlreadyHeld)
    } else {
        Err(RewriteError::Permanent("inbox identity collision"))
    }
}

/// Decides on a notice that the inbox does not hold, by the lengths of the
/// complete files in it and of the notice's own file.
pub fn admit_new(active: &Vec<u64>, intended: usize) -> (r: Result<Admission, RewriteError>)
    ensures
        r is Ok <==> active@.len() < MAX_INBOX_FILES && total(active@) + intended
            <= MAX_INBOX_BYTES,
        r matches Ok(a) ==> a == Admission::Write,
        r matches Err(e) ==> e matches RewriteError::Retryable(said) && said@
            == "rewrite inbox quota exceeded"@,
{
    if active.len() >= MAX_INBOX_FILES || capped_total(active).saturating_add(intended as u64)
        > MAX_INBOX_BYTES {
        return Err(RewriteError::Retryable("rewrite inbox quota exceeded"));
    }
    Ok(Admission::Write)
}

/// Whether the files from the `k`-th on may all stay in quarantine.
pub open spec fn within_quarantine(lengths: Seq<u64>, k: int) -> bool {
    lengths.len() - k <= MAX_QUARANTINE_FILES && total(lengths.skip(k)) <= MAX_QUARANTINE_BYTES
}

proof fn lemma_total_skip(lengths: Seq<u64>, k: int)
    requires
        0 <= k < lengths.len(),
    ensures
        total(lengths.skip(k)) == lengths[k] + total(lengths.skip(k + 1)),
    decreases lengths.len() - k,
{
    let s = lengths.skip(k);
    let rest = lengths.skip(k + 1);
    if rest.len() == 0 {
        assert(s.drop_last() =~= Seq::<u64>::empty());
        assert(total(s.drop_last()) == 0);
    } else {
        let shorter = lengths.drop_last();
        lemma_total_skip(shorter, k);
        assert(s.drop_last() =~= shorter.skip(k));
        assert(rest.drop_last() =~= shorter.skip(k + 1));
    }
}

/// How many of the oldest files must leave the quarantine, given the lengths of
/// its files from the oldest to the newest.
pub fn quarantine_evictions(lengths: &Vec<u64>) -> (r: usize)
    requires
        total(lengths@) <= u64::MAX,
    ensures
        r <= lengths@.len(),
        within_quarantine(lengths@, r as int),
        forall|k: int| 0 <= k < r ==> !within_quarantine(lengths@, k),
{
    let n: usize = lengths.len();
    assert(lengths@.skip(0) =~= lengths@);
    let mut bytes: u64 = capped_total(lengths);
    let mut k: usize = 0;
    while n - k > MAX_QUARANTINE_FILES || bytes > MAX_QUARANTINE_BYTES
        invariant
            k <= n,
            n == lengths@.len(),
            bytes == total(lengths@.skip(k as int)),
            forall|j: int| 0 <= j < k ==> !within_quarantine(lengths@, j),
        decreases n - k,
    {
        proof {
            if k == n {
                assert(lengths@.skip(n as int) =~= Seq::<u64>::empty());
            }
            lemma_total_skip(lengths@, k as int);
            lemma_total_nonnegative(lengths@.skip(k + 1));
        }
        bytes = bytes - lengths[k];
        k += 1;
    }
    k
}

proof fn lemma_total_nonnegative(lengths: Seq<u64>)
    ensures
        total(lengths) >= 0,
    decreases lengths.len(),
{
    if lengths.len() > 0 {
        lemma_total_nonnegative(lengths.drop_last());
    }
}

/// Only a regular file that no other user may touch is read from the inbox. The
/// mode is absent where the system has none.
pub fn check_private_file(is_file: bool, is_symlink: bool, mode: Option<u32>) -> (r: Result<
    (),
    RewriteError,
>)
    ensures
        r is Ok <==> is_file && !is_symlink && (mode matches Some(m) ==> m & 0x3f == 0),
        r matches Err(e) ==> rejects(
            e,
            if !is_file || is_symlink {
                "unsafe inbox"@
            } else {
                "inbox is not private"@
            },
        ),
{
    if !is_file || is_symlink {
        return Err(RewriteError::Permanent("unsafe inbox"));
    }
    match mode {
        Some(m) => if m & 0x3f != 0 {
            return Err(RewriteError::Permanent("inbox is not private"));
        },
        None => {},
    }
    Ok(())
}

/// Only a true directory serves as the inbox.
pub fn check_inbox_directory(is_dir: bool, is_symlink: bool) -> (r: Result<(), RewriteError>)
    ensures
        r is Ok <==> is_dir && !is_symlink,
        r matches Err(e) ==> rejects(e, "unsafe inbox directory"@),
{
    if !is_dir || is_symlink {
        return Err(RewriteError::Permanent("unsafe inbox directory"));
    }
    Ok(())
}

} // verus!
