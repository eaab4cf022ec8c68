//! Repository metadata: the one-line files by which a linked worktree and its
//! repository point at each other.
//!
//! A bad marker is never silently treated as a normal repository.

use crate::digest::put_bytes;
use crate::text;
use crate::text::{chars_of, glue, starts_with, string_from_bytes, text_of};
use vstd::prelude::*;
use vstd::string::*;
use vstd::utf8::*;

verus! {

pub const MAX_COMMONDIR_BYTES: u64 = 4096;

/// Why a repository's layout is not accepted.
#[derive(Debug)]
pub enum RepositoryLayoutError {
    NotRepository,
    Git(String),
    Metadata(String),
    BareRepository,
}

/// The error reports bad metadata, in these words.
pub open spec fn bad_metadata(e: RepositoryLayoutError, said: Seq<char>) -> bool {
    e matches RepositoryLayoutError::Metadata(s) && s@ == said
}

fn metadata(said: &str) -> (r: RepositoryLayoutError)
    ensures
        bad_metadata(r, said@),
{
    RepositoryLayoutError::Metadata(said.to_owned())
}

/// What a failed discovery means: recognizable metadata is never mistaken for an
/// ordinary place outside any repository.
pub fn discovery_failure(not_found: bool, has_marker: bool, said: &str) -> (r: RepositoryLayoutError)
    ensures
        match r {
            RepositoryLayoutError::Git(s) => !not_found && s@ == said@,
            RepositoryLayoutError::Metadata(s) => not_found && has_marker && s@
                == "Git metadata is present but repository discovery failed: "@ + said@,
            RepositoryLayoutError::NotRepository => not_found && !has_marker,
            RepositoryLayoutError::BareRepository => false,
        },
{
    if !not_found {
        return RepositoryLayoutError::Git(said.to_owned());
    }
    if has_marker {
        let words = glue("Git metadata is present but repository discovery failed: ", said);
        return RepositoryLayoutError::Metadata(words);
    }
    RepositoryLayoutError::NotRepository
}

/// Only a regular file of bounded length serves as a marker.
pub fn check_marker(is_symlink: bool, is_file: bool, length: u64) -> (r: Result<
    (),
    RepositoryLayoutError,
>)
    ensures
        r is Ok <==> !is_symlink && is_file && length <= MAX_COMMONDIR_BYTES,
        r matches Err(e) ==> bad_metadata(
            e,
            "commondir is symlinked, not a file, or oversized"@,
        ),
{
    if is_symlink || !is_file || length > MAX_COMMONDIR_BYTES {
        return Err(metadata("commondir is symlinked, not a file, or oversized"));
    }
    Ok(())
}

/// The text without one final line break.
pub open spec fn without_line_break(s: Seq<char>) -> Seq<char> {
    if s.len() > 0 && s.last() == '\n' {
        if s.len() > 1 && s[s.len() - 2] == '\r' {
            s.take(s.len() - 2)
        } else {
            s.drop_last()
        }
    } else {
        s
    }
}

/// One line: something, and no further line break.
pub open spec fn is_one_line(s: Seq<char>) -> bool {
    s.len() > 0 && !s.contains('\n') && !s.contains('\r')
}

/// The path that a marker names, or why it is refused.
pub open spec fn marker_path(bytes: Seq<u8>) -> Result<Seq<char>, Seq<char>> {
    if bytes.len() > MAX_COMMONDIR_BYTES {
        Err("commondir changed or is oversized"@)
    } else if !valid_utf8(bytes) {
        Err("commondir is not UTF-8"@)
    } else if decode_utf8(bytes).contains('\0') {
        Err("commondir contains NUL"@)
    } else if !is_one_line(without_line_break(decode_utf8(bytes))) {
        Err("commondir must contain exactly one non-empty line"@)
    } else {
        Ok(without_line_break(decode_utf8(bytes)))
    }
}

fn has_char(s: &Vec<char>, c: char) -> (r: bool)
    ensures
        r == s@.contains(c),
{
    let n: usize = s.len();
    let mut i: usize = 0;
    while i < n
        invariant
            i <= n,
            n == s@.len(),
            forall|k: int| 0 <= k < i ==> s@[k] != c,
        decreases n - i,
    {
        if s[i] == c {
            assert(s@[i as int] == c);
            return true;
        }
        i += 1;
    }
    false
}

fn strip_line_break(value: &str) -> (r: String)
    ensures
        r@ == without_line_break(value@),
{
    let chars = chars_of(value);
    let n: usize = chars.len();
    if n > 0 && chars[n - 1] == '\n' {
        if n > 1 && chars[n - 2] == '\r' {
            let r = text_of(chars.as_slice(), 0, n - 2);
            assert(r@ =~= without_line_break(value@));
            r
        } else {
            let r = text_of(chars.as_slice(), 0, n - 1);
            assert(r@ =~= without_line_break(value@));
            r
        }
    } else {
        value.to_owned()
    }
}

fn one_line(s: &str) -> (r: bool)
    ensures
        r == is_one_line(s@),
{
    let chars = chars_of(s);
    chars.len() > 0 && !has_char(&chars, '\n') && !has_char(&chars, '\r')
}

/// Reads the marker that points from a worktree to its repository. `bytes` is
/// what was read of it, at most one byte over the bound; `replaced` says that it
/// became a symbolic link meanwhile.
pub fn common_dir_path(bytes: &Vec<u8>, replaced: bool) -> (r: Result<String, RepositoryLayoutError>)
    ensures
        match r {
            Ok(path) => !replaced && marker_path(bytes@) == Ok::<Seq<char>, Seq<char>>(path@),
            Err(e) => if replaced {
                bad_metadata(e, "commondir changed or is oversized"@)
            } else {
                marker_path(bytes@) is Err && bad_metadata(e, marker_path(bytes@)->Err_0)
            },
        },
{
    if bytes.len() as u64 > MAX_COMMONDIR_BYTES || replaced {
        return Err(metadata("commondir changed or is oversized"));
    }
    let mut copy: Vec<u8> = Vec::new();
    put_bytes(&mut copy, bytes.as_slice());
    assert(copy@ =~= bytes@);
    let value = match string_from_bytes(copy) {
        None => {
            return Err(metadata("commondir is not UTF-8"));
        },
        Some(value) => value,
    };
    if has_char(&chars_of(value.as_str()), '\0') {
        return Err(metadata("commondir contains NUL"));
    }
    let line = strip_line_break(value.as_str());
    if !one_line(line.as_str()) {
        return Err(metadata("commondir must contain exactly one non-empty line"));
    }
    Ok(line)
}

/// The line of any other marker.
pub open spec fn plain_line(bytes: Seq<u8>) -> Result<Seq<char>, Seq<char>> {
    if bytes.len() > MAX_COMMONDIR_BYTES || bytes.contains(0u8) {
        Err("metadata marker is invalid"@)
    } else if !valid_utf8(bytes) {
        Err("metadata marker is not UTF-8"@)
    } else if !is_one_line(without_line_break(decode_utf8(bytes))) {
        Err("metadata marker is not one line"@)
    } else {
        Ok(without_line_break(decode_utf8(bytes)))
    }
}

/// Reads a marker of one line.
pub fn one_line_file(bytes: &Vec<u8>) -> (r: Result<String, RepositoryLayoutError>)
    ensures
        match r {
            Ok(line) => plain_line(bytes@) == Ok::<Seq<char>, Seq<char>>(line@),
            Err(e) => plain_line(bytes@) is Err && bad_metadata(e, plain_line(bytes@)->Err_0),
        },
{
    let n: usize = bytes.len();
    if n as u64 > MAX_COMMONDIR_BYTES {
        return Err(metadata("metadata marker is invalid"));
    }
    let mut copy: Vec<u8> = Vec::new();
    let mut i: usize = 0;
    while i < n
        invariant
            i <= n,
            n == bytes@.len(),
            n <= MAX_COMMONDIR_BYTES,
            copy@ == bytes@.take(i as int),
            forall|k: int| 0 <= k < i ==> bytes@[k] != 0,
        decreases n - i,
    {
        if bytes[i] == 0 {
            assert(bytes@[i as int] == 0);
            return Err(metadata("metadata marker is invalid"));
        }
        copy.push(bytes[i]);
        i += 1;
        assert(copy@ =~= bytes@.take(i as int));
    }
    assert(bytes@.take(n as int) =~= bytes@);
    let value = match string_from_bytes(copy) {
        None => {
            return Err(metadata("metadata marker is not UTF-8"));
        },
        Some(value) => value,
    };
    let line = strip_line_break(value.as_str());
    if !one_line(line.as_str()) {
        return Err(metadata("metadata marker is not one line"));
    }
    Ok(line)
}

/// The path that a worktree's `.git` file names.
pub fn back_reference(line: &str) -> (r: Option<String>)
    ensures
        match r {
            Some(path) => text::has_prefix(line@, "gitdir: "@) && path@ == line@.skip(8),
            None => !text::has_prefix(line@, "gitdir: "@),
        },
{
    if !starts_with(line, "gitdir: ") {
        return None;
    }
    proof {
        reveal_strlit("gitdir: ");
    }
    let chars = chars_of(line);
    let r = text_of(chars.as_slice(), 8, chars.len());
    assert(r@ =~= line@.skip(8));
    Some(r)
}

/// Without a marker a repository is its own common directory, unless it is the
/// administrative directory of a linked worktree.
pub fn check_unmarked(is_linked_worktree: bool) -> (r: Result<(), RepositoryLayoutError>)
    ensures
        r is Ok <==> !is_linked_worktree,
        r matches Err(e) ==> bad_metadata(e, "linked-worktree commondir is missing"@),
{
    if is_linked_worktree {
        return Err(metadata("linked-worktree commondir is missing"));
    }
    Ok(())
}

/// A marker gives back the path it was written for, with either line ending.
pub proof fn law_marker_round_trip(path: Seq<char>)
    requires
        is_one_line(path),
        !path.contains('\0'),
        encode_utf8(path + seq!['\r', '\n']).len() <= MAX_COMMONDIR_BYTES,
        encode_utf8(path + seq!['\n']).len() <= MAX_COMMONDIR_BYTES,
        encode_utf8(path).len() <= MAX_COMMONDIR_BYTES,
    ensures
        marker_path(encode_utf8(path)) == Ok::<Seq<char>, Seq<char>>(path),
        marker_path(encode_utf8(path + seq!['\n'])) == Ok::<Seq<char>, Seq<char>>(path),
        marker_path(encode_utf8(path + seq!['\r', '\n'])) == Ok::<Seq<char>, Seq<char>>(path),
{
    let a = path + seq!['\n'];
    let b = path + seq!['\r', '\n'];
    encode_utf8_valid_utf8(path);
    encode_utf8_decode_utf8(path);
    encode_utf8_valid_utf8(a);
    encode_utf8_decode_utf8(a);
    encode_utf8_valid_utf8(b);
    encode_utf8_decode_utf8(b);
    assert(!path.contains('\n') && !path.contains('\r'));
    assert(path.contains(path.last()));
    assert(without_line_break(path) == path);
    assert(without_line_break(a) =~= path) by {
        if a.len() > 1 {
            assert(path.contains(a[a.len() - 2]));
        }
    }
    assert(without_line_break(b) =~= path);
    assert(!a.contains('\0')) by {
        if a.contains('\0') {
            let i = choose|i: int| 0 <= i < a.len() && a[i] == '\0';
            assert(path[i] == '\0');
        }
    }
    assert(!b.contains('\0')) by {
        if b.contains('\0') {
            let i = choose|i: int| 0 <= i < b.len() && b[i] == '\0';
            assert(path[i] == '\0');
        }
    }
}

} // verus!
