//! Planning captures: which responses of a transcript window are complete, and
//! what each becomes. One response, that is all assistant entries of one
//! request, becomes one interaction.

use crate::bounded;
use crate::bounded::{bounded_head_tail, bounded_text};
use crate::digest;
use crate::digest::{decimal_text, put_bytes, sha256_digest};
use crate::json;
use crate::json::{Json, JsonModel, Member, print_json};
use crate::models;
use crate::models::{
    Author, ContextItem, ContextModel, InteractionId, Timestamp, ToolExecution, ToolModel,
    ToolStatus, copy_opt_text,
};
use crate::text;
use crate::text::{
    bytes_len, glue, glue3, is_blank, join_texts, split_text, starts_with, text_equal,
};
use crate::textset;
use crate::textset::note_first;
use crate::transcript;
use crate::transcript::{
    AssistantBlock, BlockModel, ChainModel, Entry, LineModel, OtherKind, ParsedLine, Payload,
    PayloadModel, ResultModel, ToolResultBlock, UserMessage, UserModel,
};
use vstd::hash_map::StringHashMap;
use vstd::prelude::*;
use vstd::string::*;
use vstd::utf8::*;

verus! {

/// Tool output shown in the next prompt keeps its head and tail.
pub const TOOL_RESULT_HEAD_BYTES: usize = 6144;

pub const TOOL_RESULT_TAIL_BYTES: usize = 2048;

pub const MAX_PROMPT_BYTES: usize = 65536;

pub const MAX_TEXT_BYTES: usize = 262144;

/// Tool arguments stay valid JSON: long texts are truncated in place.
pub const MAX_ARGUMENT_STRING_BYTES: usize = 16384;

pub const MAX_ARGUMENTS_BYTES: usize = 65536;

pub const MAX_TOOL_ARGUMENTS_TOTAL_BYTES: usize = 2097152;

pub const MAX_TITLE_BYTES: usize = 120;

/// The bytes that the identity of a response is the digest of.
pub open spec fn response_seed(harness: Seq<char>, session: Seq<char>, key: Seq<char>) -> Seq<u8> {
    encode_utf8("cvc."@ + harness + ".interaction/v1"@) + seq![0u8] + encode_utf8(session) + seq![0u8]
        + encode_utf8(key)
}

/// The number whose big-endian bytes are the first `n` of these.
pub open spec fn packed(bytes: Seq<u8>, n: nat) -> u128
    decreases n,
{
    if n == 0 {
        0
    } else {
        (packed(bytes, (n - 1) as nat) << 8u128) | (bytes[n - 1] as u128)
    }
}

/// Sixteen bytes of a digest in the layout of a custom UUID: version eight and
/// the RFC variant.
pub open spec fn uuid_layout(digest: Seq<u8>) -> Seq<u8> {
    digest.take(16).update(6, (digest[6] & 0x0f) | 0x80).update(8, (digest[8] & 0x3f) | 0x80)
}

/// The identity of one response of one session of a harness.
pub open spec fn response_id(harness: Seq<char>, session: Seq<char>, key: Seq<char>) -> InteractionId {
    InteractionId {
        value: packed(uuid_layout(digest::sha256(response_seed(harness, session, key))), 16),
    }
}

/// Deterministic interaction identity for one response of one session, so
/// that reading a transcript again is idempotent by construction.
pub fn derived_interaction_id(harness: &str, session_id: &str, response_key: &str) -> (r:
    InteractionId)
    ensures
        r == response_id(harness@, session_id@, response_key@),
{
    let domain = glue3("cvc.", harness, ".interaction/v1");
    let mut seed: Vec<u8> = Vec::new();
    put_bytes(&mut seed, domain.as_str().as_bytes());
    seed.push(0);
    put_bytes(&mut seed, session_id.as_bytes());
    seed.push(0);
    put_bytes(&mut seed, response_key.as_bytes());
    assert(seed@ =~= response_seed(harness@, session_id@, response_key@));
    let d = sha256_digest(seed.as_slice());
    let ghost layout = uuid_layout(d@);
    let mut value: u128 = 0;
    let mut i: usize = 0;
    while i < 16
        invariant
            i <= 16,
            d@.len() == 32,
            layout == uuid_layout(d@),
            value == packed(layout, i as nat),
        decreases 16 - i,
    {
        let mut b: u8 = d[i];
        if i == 6 {
            b = (b & 0x0f) | 0x80;
        } else if i == 8 {
            b = (b & 0x3f) | 0x80;
        }
        assert(b == layout[i as int]);
        value = (value << 8u128) | (b as u128);
        i += 1;
    }
    InteractionId::from_uuid(value)
}

/// The path starts at the root of the file system. Paths are written with
/// slashes; those with a drive are outside what the library knows of.
pub open spec fn is_absolute(path: Seq<char>) -> bool {
    path.len() > 0 && path[0] == '/'
}

/// A piece of a path that names something.
pub open spec fn names_something(piece: Seq<char>) -> bool {
    piece.len() > 0 && piece != "."@
}

/// The components of a path that name something: its pieces without empty ones
/// and those that stay where they are.
pub open spec fn components(path: Seq<char>) -> Seq<Seq<char>> {
    text::pieces(path, '/').filter(|p: Seq<char>| names_something(p))
}

/// The components by which two paths of one kind are told apart: a relative path
/// that starts by staying where it is keeps that start.
pub open spec fn steps(path: Seq<char>) -> Seq<Seq<char>> {
    if !is_absolute(path) && text::pieces(path, '/')[0] == "."@ {
        seq!["."@] + components(path)
    } else {
        components(path)
    }
}

/// The first components of `a` are those of `b`.
pub open spec fn lies_under(a: Seq<Seq<char>>, b: Seq<Seq<char>>) -> bool {
    b.len() <= a.len() && a.take(b.len() as int) == b
}

/// What the first fitting alias makes of an absolute path, from position `k` on:
/// whether it is still absolute, and its components. An alias that is spelled
/// with nothing leaves the path as it is.
pub open spec fn through_alias(
    p: Seq<Seq<char>>,
    aliases: Seq<(Seq<char>, Seq<char>)>,
    k: int,
) -> Option<(bool, Seq<Seq<char>>)>
    decreases aliases.len() - k,
{
    if k < 0 || k >= aliases.len() {
        None
    } else {
        let (spelled, canonical) = aliases[k];
        if spelled.len() == 0 {
            Some((true, p))
        } else if is_absolute(spelled) && lies_under(p, components(spelled)) {
            Some(
                (is_absolute(canonical), steps(canonical) + p.skip(components(spelled).len() as int)),
            )
        } else {
            through_alias(p, aliases, k + 1)
        }
    }
}

/// The components of a path below the root, directly or through an alias that
/// leads below the root. Only an alias leads below a relative root, and nothing
/// lies below the empty one.
pub open spec fn below_root(
    path: Seq<char>,
    root: Seq<char>,
    aliases: Seq<(Seq<char>, Seq<char>)>,
) -> Option<Seq<Seq<char>>> {
    let p = components(path);
    let r = steps(root);
    if !is_absolute(path) || root.len() == 0 {
        None
    } else if is_absolute(root) && lies_under(p, r) {
        Some(p.skip(r.len() as int))
    } else {
        match through_alias(p, aliases, 0) {
            None => None,
            Some((rooted, q)) => if rooted == is_absolute(root) && lies_under(q, r) {
                Some(q.skip(r.len() as int))
            } else {
                None
            },
        }
    }
}

/// A path relative to the worktree; none for the root itself and for paths that
/// lead out of it or go up.
pub open spec fn relative_path(
    path: Seq<char>,
    root: Seq<char>,
    aliases: Seq<(Seq<char>, Seq<char>)>,
) -> Option<Seq<char>> {
    match below_root(path, root, aliases) {
        None => None,
        Some(rest) => if rest.len() == 0 || rest.contains(".."@) {
            None
        } else {
            Some(text::joined(rest, "/"@))
        },
    }
}

/// A spelling of a directory, as a transcript records it, and the canonical
/// directory it stands for.
#[derive(Debug)]
pub struct PathAlias {
    pub spelled: String,
    pub canonical: String,
}

/// The contents of aliases.
pub open spec fn alias_models(s: Seq<PathAlias>) -> Seq<(Seq<char>, Seq<char>)> {
    s.map_values(|a: PathAlias| (a.spelled@, a.canonical@))
}

pub fn absolute(path: &str) -> (r: bool)
    ensures
        r == is_absolute(path@),
{
    proof {
        reveal_strlit("/");
        if path@.len() > 0 {
            assert(path@.take(1) =~= seq![path@[0]]);
            assert("/"@ =~= seq!['/']);
            assert(path@.take(1)[0] == path@[0]);
        }
    }
    starts_with(path, "/")
}

pub fn path_components(path: &str) -> (r: Vec<String>)
    ensures
        r.deep_view() == components(path@),
{
    let parts = split_text(path, '/');
    let ghost s = parts.deep_view();
    let ghost keep = |p: Seq<char>| names_something(p);
    let mut out: Vec<String> = Vec::new();
    let mut k: usize = 0;
    assert(out.deep_view() =~= s.take(0).filter(keep)) by {
        reveal(Seq::filter);
    }
    while k < parts.len()
        invariant
            k <= parts.len(),
            s == parts.deep_view(),
            keep == (|p: Seq<char>| names_something(p)),
            out.deep_view() == s.take(k as int).filter(keep),
        decreases parts.len() - k,
    {
        proof {
            reveal(Seq::filter);
            assert(s[k as int] == parts@[k as int]@);
            assert(s.take(k + 1).drop_last() =~= s.take(k as int));
            assert(s.take(k + 1).last() == s[k as int]);
        }
        let p = parts[k].as_str();
        if !p.is_empty() && !text_equal(p, ".") {
            let ghost held = out.deep_view();
            out.push(parts[k].clone());
            assert(out.deep_view() =~= held.push(s[k as int]));
        }
        k += 1;
    }
    assert(s.take(s.len() as int) =~= s);
    out
}

fn put_pieces(out: &mut Vec<String>, more: &Vec<String>)
    ensures
        final(out).deep_view() == old(out).deep_view() + more.deep_view(),
{
    let ghost held = out.deep_view();
    let ghost m = more.deep_view();
    let mut i: usize = 0;
    assert(held + m.take(0) =~= held);
    while i < more.len()
        invariant
            i <= more.len(),
            m == more.deep_view(),
            out.deep_view() == held + m.take(i as int),
        decreases more.len() - i,
    {
        assert(m[i as int] == more@[i as int]@);
        let ghost now = out.deep_view();
        out.push(more[i].clone());
        assert(out.deep_view() =~= now.push(m[i as int]));
        i += 1;
        assert(held + m.take(i as int) =~= now.push(m[i - 1]));
    }
    assert(m.take(m.len() as int) =~= m);
}

pub fn path_steps(path: &str) -> (r: Vec<String>)
    ensures
        r.deep_view() == steps(path@),
{
    let parts = split_text(path, '/');
    proof {
        assert(parts@.len() == text::pieces(path@, '/').len());
        assert(parts.deep_view()[0] == parts@[0]@);
    }
    let found = path_components(path);
    if absolute(path) || !text_equal(parts[0].as_str(), ".") {
        return found;
    }
    let mut out: Vec<String> = vec![".".to_owned()];
    assert(out.deep_view() =~= seq!["."@]);
    put_pieces(&mut out, &found);
    out
}

pub fn is_under(a: &Vec<String>, b: &Vec<String>) -> (r: bool)
    ensures
        r == lies_under(a.deep_view(), b.deep_view()),
{
    let ghost x = a.deep_view();
    let ghost y = b.deep_view();
    if b.len() > a.len() {
        return false;
    }
    let mut i: usize = 0;
    while i < b.len()
        invariant
            i <= b.len() <= a.len(),
            x == a.deep_view(),
            y == b.deep_view(),
            forall|k: int| 0 <= k < i ==> #[trigger] x[k] == y[k],
        decreases b.len() - i,
    {
        assert(x[i as int] == a@[i as int]@);
        assert(y[i as int] == b@[i as int]@);
        if !text_equal(a[i].as_str(), b[i].as_str()) {
            proof {
                if lies_under(x, y) {
                    assert(x.take(y.len() as int)[i as int] == y[i as int]);
                }
            }
            return false;
        }
        i += 1;
    }
    assert(x.take(y.len() as int) =~= y);
    true
}

fn rest_behind(a: &Vec<String>, n: usize) -> (r: Vec<String>)
    requires
        n <= a@.len(),
    ensures
        r.deep_view() == a.deep_view().skip(n as int),
{
    let ghost x = a.deep_view();
    let mut out: Vec<String> = Vec::new();
    let mut i: usize = n;
    while i < a.len()
        invariant
            n <= i <= a.len(),
            x == a.deep_view(),
            out.deep_view() == x.subrange(n as int, i as int),
        decreases a.len() - i,
    {
        assert(x[i as int] == a@[i as int]@);
        let ghost held = out.deep_view();
        out.push(a[i].clone());
        assert(out.deep_view() =~= held.push(x[i as int]));
        i += 1;
        assert(out.deep_view() =~= x.subrange(n as int, i as int));
    }
    assert(x.subrange(n as int, a@.len() as int) =~= x.skip(n as int));
    out
}

fn resolve_alias(p: Vec<String>, aliases: &Vec<PathAlias>) -> (r: Option<(bool, Vec<String>)>)
    ensures
        match through_alias(p.deep_view(), alias_models(aliases@), 0) {
            Some(q) => r matches Some(v) && v.0 == q.0 && v.1.deep_view() == q.1,
            None => r is None,
        },
{
    let ghost pm = p.deep_view();
    let ghost am = alias_models(aliases@);
    let mut k: usize = 0;
    while k < aliases.len()
        invariant
            k <= aliases.len(),
            pm == p.deep_view(),
            am == alias_models(aliases@),
            through_alias(pm, am, 0) == through_alias(pm, am, k as int),
        decreases aliases.len() - k,
    {
        let a = &aliases[k];
        assert(am[k as int] == (a.spelled@, a.canonical@));
        if a.spelled.as_str().is_empty() {
            return Some((true, p));
        }
        if absolute(a.spelled.as_str()) {
            let spelled = path_components(a.spelled.as_str());
            if is_under(&p, &spelled) {
                let mut q = path_steps(a.canonical.as_str());
                let rest = rest_behind(&p, spelled.len());
                put_pieces(&mut q, &rest);
                return Some((absolute(a.canonical.as_str()), q));
            }
        }
        k += 1;
    }
    None
}

/// A path relative to the worktree.
pub fn worktree_relative(raw: &str, worktree_root: &str, path_aliases: &Vec<PathAlias>) -> (r: Option<
    String,
>)
    ensures
        match relative_path(raw@, worktree_root@, alias_models(path_aliases@)) {
            Some(s) => r matches Some(x) && x@ == s,
            None => r is None,
        },
{
    if !absolute(raw) || worktree_root.is_empty() {
        return None;
    }
    let p = path_components(raw);
    let root = path_steps(worktree_root);
    let rooted = absolute(worktree_root);
    let rest = if rooted && is_under(&p, &root) {
        rest_behind(&p, root.len())
    } else {
        match resolve_alias(p, path_aliases) {
            None => {
                return None;
            },
            Some((still, q)) => {
                if still != rooted || !is_under(&q, &root) {
                    return None;
                }
                rest_behind(&q, root.len())
            },
        }
    };
    if rest.len() == 0 {
        return None;
    }
    let ghost rm = rest.deep_view();
    let mut i: usize = 0;
    while i < rest.len()
        invariant
            i <= rest.len(),
            rm == rest.deep_view(),
            below_root(raw@, worktree_root@, alias_models(path_aliases@)) == Some(rm),
            forall|k: int| 0 <= k < i ==> #[trigger] rm[k] != ".."@,
        decreases rest.len() - i,
    {
        assert(rm[i as int] == rest@[i as int]@);
        if text_equal(rest[i].as_str(), "..") {
            return None;
        }
        i += 1;
    }
    assert(!rm.contains(".."@));
    Some(join_texts(&rest, "/"))
}

/// A document whose long texts are truncated in place.
pub open spec fn bounded_strings(a: JsonModel, max: int) -> JsonModel
    decreases a,
{
    match a {
        JsonModel::Text(t) => JsonModel::Text(bounded::bounded(t, max)),
        JsonModel::List(xs) => JsonModel::List(
            Seq::new(
                xs.len(),
                |i: int|
                    if 0 <= i < xs.len() {
                        bounded_strings(xs[i], max)
                    } else {
                        arbitrary()
                    },
            ),
        ),
        JsonModel::Object(xs) => JsonModel::Object(
            Seq::new(
                xs.len(),
                |i: int|
                    if 0 <= i < xs.len() {
                        (xs[i].0, bounded_strings(xs[i].1, max))
                    } else {
                        arbitrary()
                    },
            ),
        ),
        _ => a,
    }
}

/// Truncates the long texts of a document.
pub fn bound_strings(value: &Json, max: usize) -> (r: Json)
    ensures
        r@ == bounded_strings(value@, max as int),
    decreases value,
{
    match value {
        Json::Text(t) => Json::Text(bounded_text(t.as_str(), max)),
        Json::List(list) => {
            let ghost xs = json::list_models(list@);
            proof {
                json::lemma_list_model(*list);
            }
            let mut out: Vec<Json> = Vec::new();
            let mut i: usize = 0;
            while i < list.len()
                invariant
                    i <= list.len(),
                    *value == Json::List(*list),
                    xs == json::list_models(list@),
                    value@ == JsonModel::List(xs),
                    out.len() == i,
                    forall|k: int|
                        0 <= k < i ==> (#[trigger] out@[k])@ == bounded_strings(xs[k], max as int),
                decreases list.len() - i,
            {
                assert(xs[i as int] == list@[i as int]@);
                assert(decreases_to!(*value => list@[i as int])) by {
                    assert(decreases_to!(value->List_0 => value->List_0@));
                    assert(decreases_to!(list@ => list@[i as int]));
                }
                out.push(bound_strings(&list[i], max));
                i += 1;
            }
            proof {
                json::lemma_list_model(out);
                assert(json::list_models(out@) =~= bounded_strings(
                    value@,
                    max as int,
                )->List_0) by {
                    assert forall|k: int| 0 <= k < out@.len() implies json::list_models(out@)[k]
                        == bounded_strings(value@, max as int)->List_0[k] by {
                        assert(out@[k]@ == bounded_strings(xs[k], max as int));
                    }
                }
            }
            Json::List(out)
        },
        Json::Object(members) => {
            let ghost xs = json::member_models(members@);
            proof {
                json::lemma_object_model(*members);
            }
            let mut out: Vec<Member> = Vec::new();
            let mut i: usize = 0;
            while i < members.len()
                invariant
                    i <= members.len(),
                    *value == Json::Object(*members),
                    xs == json::member_models(members@),
                    value@ == JsonModel::Object(xs),
                    out.len() == i,
                    forall|k: int|
                        0 <= k < i ==> (#[trigger] out@[k]).name@ == xs[k].0 && out@[k].value@
                            == bounded_strings(xs[k].1, max as int),
                decreases members.len() - i,
            {
                assert(xs[i as int] == (members@[i as int].name@, members@[i as int].value@));
                assert(decreases_to!(*value => members@[i as int].value)) by {
                    assert(decreases_to!(value->Object_0 => value->Object_0@));
                    assert(decreases_to!(members@ => members@[i as int]));
                }
                out.push(
                    Member {
                        name: members[i].name.clone(),
                        value: bound_strings(&members[i].value, max),
                    },
                );
                i += 1;
            }
            proof {
                json::lemma_object_model(out);
                assert(json::member_models(out@) =~= bounded_strings(
                    value@,
                    max as int,
                )->Object_0) by {
                    assert forall|k: int| 0 <= k < out@.len() implies json::member_models(out@)[k]
                        == bounded_strings(value@, max as int)->Object_0[k] by {
                        assert(out@[k].name@ == xs[k].0);
                    }
                }
            }
            Json::Object(out)
        },
        _ => value.clone(),
    }
}

/// What stands for arguments that are too long: the number of their bytes.
pub open spec fn truncated_arguments(bytes: nat) -> Seq<char> {
    "{\"bytes\":"@ + digest::decimal(bytes) + ",\"cvc_truncated\":true}"@
}

/// Tool arguments within the bytes that are left, and the bytes left after them.
pub open spec fn arguments_within(input: JsonModel, budget: int) -> (Seq<char>, int) {
    let printed = json::printed_json(bounded_strings(input, MAX_ARGUMENT_STRING_BYTES as int));
    let n = text::byte_len(printed) as int;
    if n > MAX_ARGUMENTS_BYTES || n > budget {
        (truncated_arguments(text::byte_len(json::printed_json(input))), budget)
    } else {
        (printed, budget - n)
    }
}

/// Serializes tool input as JSON that stays valid after size bounding.
pub fn bounded_arguments(input: &Json, budget: &mut usize) -> (r: String)
    ensures
        r@ == arguments_within(input@, *old(budget) as int).0,
        *final(budget) == arguments_within(input@, *old(budget) as int).1,
{
    let value = bound_strings(input, MAX_ARGUMENT_STRING_BYTES);
    let printed = print_json(&value);
    let n: usize = bytes_len(printed.as_str());
    if n > MAX_ARGUMENTS_BYTES || n > *budget {
        let all = print_json(input);
        let bytes: usize = bytes_len(all.as_str());
        return glue3(
            "{\"bytes\":",
            decimal_text(bytes as u64).as_str(),
            ",\"cvc_truncated\":true}",
        );
    }
    *budget = *budget - n;
    printed
}

/// The argument that names the file a tool works on.
pub open spec fn path_argument(tool: Seq<char>) -> Option<Seq<char>> {
    if tool == "Read"@ || tool == "Edit"@ || tool == "Write"@ || tool == "MultiEdit"@ {
        Some("file_path"@)
    } else if tool == "NotebookEdit"@ {
        Some("notebook_path"@)
    } else {
        None
    }
}

/// A positive integer among the arguments.
pub open spec fn positive_argument(input: JsonModel, name: Seq<char>) -> Option<i64> {
    match json::member(input, name) {
        Some(j) => match json::integer_in(j) {
            Some(n) => if n >= 1 {
                Some(n)
            } else {
                None
            },
            None => None,
        },
        None => None,
    }
}

/// A line number, at most the largest that a context item holds.
pub open spec fn line_number(n: int) -> i32 {
    if n > i32::MAX {
        i32::MAX
    } else {
        n as i32
    }
}

/// The first and the last line that a tool read.
pub open spec fn lines_read(tool: Seq<char>, input: JsonModel) -> (Option<i32>, Option<i32>) {
    if tool != "Read"@ {
        (None, None)
    } else {
        match (positive_argument(input, "offset"@), positive_argument(input, "limit"@)) {
            (Some(offset), Some(limit)) => (
                Some(line_number(offset as int)),
                Some(line_number(offset + limit - 1)),
            ),
            (Some(offset), None) => (Some(line_number(offset as int)), None),
            _ => (None, None),
        }
    }
}

/// The context item for a file the model read or edited inside the worktree.
/// Everything else is deliberately not attributed.
pub open spec fn context_of(
    tool: Seq<char>,
    input: JsonModel,
    root: Seq<char>,
    aliases: Seq<(Seq<char>, Seq<char>)>,
    id: InteractionId,
) -> Option<ContextModel> {
    match path_argument(tool) {
        None => None,
        Some(key) => match json::text_in(json::member(input, key)) {
            None => None,
            Some(raw) => match relative_path(raw, root, aliases) {
                None => None,
                Some(file_path) => Some(
                    ContextModel {
                        id: None,
                        interaction_id: id,
                        file_path,
                        git_blob_sha: None,
                        dirty_patch: None,
                        start_line: lines_read(tool, input).0,
                        end_line: lines_read(tool, input).1,
                    },
                ),
            },
        },
    }
}

fn positive_at(input: &Json, name: &str) -> (r: Option<i64>)
    ensures
        r == positive_argument(input@, name@),
        r matches Some(n) ==> n >= 1,
{
    match input.get(name) {
        Some(j) => match j.as_i64() {
            Some(n) => if n >= 1 {
                Some(n)
            } else {
                None
            },
            None => None,
        },
        None => None,
    }
}

fn clamp_line(n: i128) -> (r: i32)
    requires
        1 <= n,
    ensures
        r == line_number(n as int),
{
    if n > 2147483647 {
        2147483647
    } else {
        n as i32
    }
}

/// The context item for a file the model read or edited inside the worktree.
pub fn context_item_for(
    tool_name: &str,
    input: &Json,
    worktree_root: &str,
    path_aliases: &Vec<PathAlias>,
    interaction_id: &InteractionId,
) -> (r: Option<ContextItem>)
    ensures
        match context_of(
            tool_name@,
            input@,
            worktree_root@,
            alias_models(path_aliases@),
            *interaction_id,
        ) {
            Some(m) => r matches Some(x) && x@ == m,
            None => r is None,
        },
{
    let key = if text_equal(tool_name, "Read") || text_equal(tool_name, "Edit") || text_equal(
        tool_name,
        "Write",
    ) || text_equal(tool_name, "MultiEdit") {
        "file_path"
    } else if text_equal(tool_name, "NotebookEdit") {
        "notebook_path"
    } else {
        return None;
    };
    let raw = match input.text_at(key) {
        Some(raw) => raw,
        None => {
            return None;
        },
    };
    let file_path = match worktree_relative(raw.as_str(), worktree_root, path_aliases) {
        Some(p) => p,
        None => {
            return None;
        },
    };
    let mut start_line: Option<i32> = None;
    let mut end_line: Option<i32> = None;
    if text_equal(tool_name, "Read") {
        match positive_at(input, "offset") {
            Some(offset) => {
                start_line = Some(clamp_line(offset as i128));
                match positive_at(input, "limit") {
                    Some(limit) => {
                        end_line = Some(clamp_line(offset as i128 + limit as i128 - 1));
                    },
                    None => {},
                }
            },
            None => {},
        }
    }
    Some(
        ContextItem {
            id: None,
            interaction_id: *interaction_id,
            file_path,
            git_blob_sha: None,
            dirty_patch: None,
            start_line,
            end_line,
        },
    )
}

/// The entries among the first `n` lines.
pub open spec fn chain(lines: Seq<LineModel>, n: nat) -> Seq<ChainModel>
    decreases n,
{
    if n == 0 || n > lines.len() {
        Seq::empty()
    } else {
        match lines[n - 1] {
            LineModel::Entry(e) => chain(lines, (n - 1) as nat).push(e),
            _ => chain(lines, (n - 1) as nat),
        }
    }
}

/// The last title among the first `n` lines.
pub open spec fn last_title(lines: Seq<LineModel>, n: nat) -> Option<Seq<char>>
    decreases n,
{
    if n == 0 || n > lines.len() {
        None
    } else {
        match lines[n - 1] {
            LineModel::Title(t) => Some(bounded::bounded(t, MAX_TITLE_BYTES as int)),
            _ => last_title(lines, (n - 1) as nat),
        }
    }
}

/// The contents of entries.
pub open spec fn chain_models(s: Seq<&Entry>) -> Seq<ChainModel> {
    s.map_values(|e: &Entry| e@)
}

fn entries_of<'a>(lines: &'a Vec<ParsedLine>) -> (r: Vec<&'a Entry>)
    ensures
        chain_models(r@) == chain(transcript::line_models(lines@), lines@.len()),
{
    let ghost ls = transcript::line_models(lines@);
    let mut out: Vec<&'a Entry> = Vec::new();
    assert(chain_models(out@) =~= Seq::empty());
    let mut k: usize = 0;
    while k < lines.len()
        invariant
            k <= lines.len(),
            ls == transcript::line_models(lines@),
            chain_models(out@) == chain(ls, k as nat),
        decreases lines.len() - k,
    {
        assert(ls[k as int] == lines@[k as int]@);
        match &lines[k] {
            ParsedLine::Entry(e) => {
                let ghost held = chain_models(out@);
                out.push(e);
                assert(chain_models(out@) =~= held.push(e@));
            },
            _ => {},
        }
        k += 1;
    }
    out
}

fn find_title(lines: &Vec<ParsedLine>) -> (r: Option<String>)
    ensures
        models::opt_text(r) == last_title(transcript::line_models(lines@), lines@.len()),
{
    let ghost ls = transcript::line_models(lines@);
    let mut k: usize = lines.len();
    while k > 0
        invariant
            k <= lines.len(),
            ls == transcript::line_models(lines@),
            last_title(ls, lines@.len()) == last_title(ls, k as nat),
        decreases k,
    {
        assert(ls[k - 1] == lines@[k - 1]@);
        match &lines[k - 1] {
            ParsedLine::Title(t) => {
                return Some(bounded_text(t.as_str(), MAX_TITLE_BYTES));
            },
            _ => {},
        }
        k -= 1;
    }
    None
}

/// What groups the entries of one response: the request, or the entry itself
/// where it names none.
pub open spec fn response_key(e: ChainModel) -> Option<Seq<char>> {
    match e.payload {
        PayloadModel::Assistant(m) => match m.request_id {
            Some(r) => Some(r),
            None => Some("uuid:"@ + e.uuid),
        },
        _ => None,
    }
}

/// The responses among the first `n` entries, in the order of their first entry.
pub open spec fn group_keys(es: Seq<ChainModel>, n: nat) -> Seq<Seq<char>>
    decreases n,
{
    if n == 0 || n > es.len() {
        Seq::empty()
    } else {
        let before = group_keys(es, (n - 1) as nat);
        match response_key(es[n - 1]) {
            Some(k) => if before.contains(k) {
                before
            } else {
                before.push(k)
            },
            None => before,
        }
    }
}

/// Where the entries of a response stand among the first `n` entries.
pub open spec fn group_members(es: Seq<ChainModel>, key: Seq<char>, n: nat) -> Seq<int>
    decreases n,
{
    if n == 0 || n > es.len() {
        Seq::empty()
    } else if response_key(es[n - 1]) == Some(key) {
        group_members(es, key, (n - 1) as nat).push(n - 1)
    } else {
        group_members(es, key, (n - 1) as nat)
    }
}

/// A call of a tool.
#[verifier::ext_equal]
pub struct UseModel {
    pub id: Seq<char>,
    pub name: Seq<char>,
    pub input: JsonModel,
}

/// The tool calls among the first `n` blocks.
pub open spec fn uses_in(blocks: Seq<BlockModel>, n: nat) -> Seq<UseModel>
    decreases n,
{
    if n == 0 || n > blocks.len() {
        Seq::empty()
    } else {
        let before = uses_in(blocks, (n - 1) as nat);
        match blocks[n - 1] {
            BlockModel::ToolUse { id, name, input } => before.push(UseModel { id, name, input }),
            _ => before,
        }
    }
}

/// The tool calls of an entry.
pub open spec fn uses_of(e: ChainModel) -> Seq<UseModel> {
    match e.payload {
        PayloadModel::Assistant(m) => uses_in(m.blocks, m.blocks.len()),
        _ => Seq::empty(),
    }
}

/// The tool results of an entry.
pub open spec fn results_of(e: ChainModel) -> Seq<ResultModel> {
    match e.payload {
        PayloadModel::User(m) => m.tool_results,
        _ => Seq::empty(),
    }
}

/// The tool calls of the first `n` entries.
pub open spec fn all_uses(es: Seq<ChainModel>, n: nat) -> Seq<UseModel>
    decreases n,
{
    if n == 0 || n > es.len() {
        Seq::empty()
    } else {
        all_uses(es, (n - 1) as nat) + uses_of(es[n - 1])
    }
}

/// The tool results of the first `n` entries.
pub open spec fn all_results(es: Seq<ChainModel>, n: nat) -> Seq<ResultModel>
    decreases n,
{
    if n == 0 || n > es.len() {
        Seq::empty()
    } else {
        all_results(es, (n - 1) as nat) + results_of(es[n - 1])
    }
}

/// The tool calls that results answer to.
pub open spec fn result_ids(rs: Seq<ResultModel>) -> Seq<Seq<char>> {
    rs.map_values(|r: ResultModel| r.tool_use_id)
}

/// The identifiers of tool calls.
pub open spec fn use_ids(us: Seq<UseModel>) -> Seq<Seq<char>> {
    us.map_values(|u: UseModel| u.id)
}

/// The identifiers of entries.
pub open spec fn entry_ids(es: Seq<ChainModel>) -> Seq<Seq<char>> {
    es.map_values(|e: ChainModel| e.uuid)
}

/// The first text that is not blank, from position `k` on.
pub open spec fn first_shown(texts: Seq<Seq<char>>, k: int) -> Option<Seq<char>>
    decreases texts.len() - k,
{
    if k < 0 || k >= texts.len() {
        None
    } else if text::trimmed(texts[k]).len() > 0 {
        Some(texts[k])
    } else {
        first_shown(texts, k + 1)
    }
}

/// The first prompt that a human wrote, from entry `k` on.
pub open spec fn first_prompt(es: Seq<ChainModel>, k: int) -> Option<Seq<char>>
    decreases es.len() - k,
{
    if k < 0 || k >= es.len() {
        None
    } else {
        let own = match es[k].payload {
            PayloadModel::User(m) => if !m.meta && !m.compact_summary {
                first_shown(m.texts, 0)
            } else {
                None
            },
            _ => None,
        };
        match own {
            Some(t) => Some(t),
            None => first_prompt(es, k + 1),
        }
    }
}

fn find_shown(texts: &Vec<String>) -> (r: Option<String>)
    ensures
        models::opt_text(r) == first_shown(texts.deep_view(), 0),
{
    let ghost ts = texts.deep_view();
    let mut k: usize = 0;
    while k < texts.len()
        invariant
            k <= texts.len(),
            ts == texts.deep_view(),
            first_shown(ts, 0) == first_shown(ts, k as int),
        decreases texts.len() - k,
    {
        assert(ts[k as int] == texts@[k as int]@);
        if !is_blank(texts[k].as_str()) {
            return Some(texts[k].clone());
        }
        k += 1;
    }
    None
}

fn find_prompt(entries: &Vec<&Entry>) -> (r: Option<String>)
    ensures
        models::opt_text(r) == first_prompt(chain_models(entries@), 0),
{
    let ghost es = chain_models(entries@);
    let mut k: usize = 0;
    while k < entries.len()
        invariant
            k <= entries.len(),
            es == chain_models(entries@),
            first_prompt(es, 0) == first_prompt(es, k as int),
        decreases entries.len() - k,
    {
        assert(es[k as int] == entries@[k as int]@);
        match &entries[k].payload {
            Payload::User(m) => {
                if !m.meta && !m.compact_summary {
                    match find_shown(&m.texts) {
                        Some(t) => {
                            return Some(t);
                        },
                        None => {},
                    }
                }
            },
            _ => {},
        }
        k += 1;
    }
    None
}

/// The entries of one response.
struct Group {
    key: String,
    positions: Vec<usize>,
}

fn key_text(e: &Entry) -> (r: Option<String>)
    ensures
        models::opt_text(r) == response_key(e@),
{
    match &e.payload {
        Payload::Assistant(m) => match &m.request_id {
            Some(r) => Some(r.clone()),
            None => Some(glue("uuid:", e.uuid.as_str())),
        },
        _ => None,
    }
}

/// The positions as plain integers.
pub open spec fn as_ints(s: Seq<usize>) -> Seq<int> {
    s.map_values(|i: usize| i as int)
}

/// The groups hold the responses of the first `n` entries.
spec fn groups_hold(groups: Seq<Group>, es: Seq<ChainModel>, n: nat) -> bool {
    &&& groups.len() == group_keys(es, n).len()
    &&& forall|g: int|
        0 <= g < groups.len() ==> {
            &&& (#[trigger] groups[g]).key@ == group_keys(es, n)[g]
            &&& as_ints(groups[g].positions@) == group_members(es, groups[g].key@, n)
        }
}

proof fn lemma_no_members(es: Seq<ChainModel>, key: Seq<char>, n: nat)
    requires
        n <= es.len(),
        !group_keys(es, n).contains(key),
    ensures
        group_members(es, key, n) == Seq::<int>::empty(),
    decreases n,
{
    if n > 0 {
        let before = group_keys(es, (n - 1) as nat);
        let now = group_keys(es, n);
        assert(!before.contains(key)) by {
            if before.contains(key) {
                let k = before.index_of(key);
                assert(now[k] == key);
            }
        }
        lemma_no_members(es, key, (n - 1) as nat);
        if response_key(es[n - 1]) == Some(key) {
            if before.contains(key) {
            } else {
                assert(now[before.len() as int] == key);
            }
        }
    }
}

pub proof fn lemma_keys_differ(es: Seq<ChainModel>, n: nat, a: int, b: int)
    requires
        n <= es.len(),
        0 <= a < b < group_keys(es, n).len(),
    ensures
        group_keys(es, n)[a] != group_keys(es, n)[b],
    decreases n,
{
    if n > 0 {
        let before = group_keys(es, (n - 1) as nat);
        let now = group_keys(es, n);
        if b < before.len() {
            lemma_keys_differ(es, (n - 1) as nat, a, b);
        } else {
            assert(now[a] == before[a]);
            assert(before.contains(before[a]));
        }
    }
}

fn group_entries(entries: &Vec<&Entry>) -> (r: Vec<Group>)
    ensures
        groups_hold(r@, chain_models(entries@), entries@.len()),
{
    let ghost es = chain_models(entries@);
    let mut groups: Vec<Group> = Vec::new();
    let mut index: StringHashMap<usize> = StringHashMap::new();
    assert(textset::is_first_index(index@, Seq::empty()));
    let mut n: usize = 0;
    while n < entries.len()
        invariant
            n <= entries.len(),
            es == chain_models(entries@),
            groups_hold(groups@, es, n as nat),
            textset::is_first_index(index@, group_keys(es, n as nat)),
        decreases entries.len() - n,
    {
        let e = entries[n];
        assert(es[n as int] == e@);
        let ghost keys = group_keys(es, n as nat);
        match key_text(e) {
            None => {
                proof {
                    assert forall|g: int| 0 <= g < groups@.len() implies as_ints(
                        (#[trigger] groups@[g]).positions@,
                    ) == group_members(es, groups@[g].key@, (n + 1) as nat) by {}
                }
            },
            Some(key) => {
                let found = match index.get(key.as_str()) {
                    Some(g) => Some(*g),
                    None => None,
                };
                proof {
                    textset::lemma_position_of(keys, key@, 0);
                    assert(match textset::position_of(keys, key@, 0) {
                        Some(i) => index@.contains_key(key@) && index@[key@] == i,
                        None => !index@.contains_key(key@),
                    }) by {
                        let _ = index@.contains_key(key@);
                    }
                }
                match found {
                    Some(g) => {
                        let ghost old_groups = groups@;
                        assert(keys[g as int] == key@);
                        assert(keys.contains(key@));
                        let mut group = groups.remove(g);
                        let ghost held = as_ints(group.positions@);
                        group.positions.push(n);
                        assert(as_ints(group.positions@) =~= held.push(n as int));
                        groups.insert(g, group);
                        proof {
                            assert forall|h: int| 0 <= h < groups@.len() implies {
                                &&& (#[trigger] groups@[h]).key@ == keys[h]
                                &&& as_ints(groups@[h].positions@) == group_members(
                                    es,
                                    groups@[h].key@,
                                    (n + 1) as nat,
                                )
                            } by {
                                if h != g {
                                    assert(groups@[h] == old_groups[h]);
                                    if h < g {
                                        lemma_keys_differ(es, n as nat, h, g as int);
                                    } else {
                                        lemma_keys_differ(es, n as nat, g as int, h);
                                    }
                                } else {
                                    assert(groups@[g as int].key == old_groups[g as int].key);
                                }
                            }
                        }
                    },
                    None => {
                        let at: usize = groups.len();
                        note_first(&mut index, key.as_str(), at);
                        assert(!keys.contains(key@));
                        let ghost old_groups = groups@;
                        let mut positions: Vec<usize> = Vec::new();
                        positions.push(n);
                        let ghost kv = key@;
                        groups.push(Group { key, positions });
                        proof {
                            lemma_no_members(es, kv, n as nat);
                            assert(as_ints(positions@) =~= Seq::<int>::empty().push(n as int));
                            assert forall|h: int| 0 <= h < groups@.len() implies {
                                &&& (#[trigger] groups@[h]).key@ == keys.push(kv)[h]
                                &&& as_ints(groups@[h].positions@) == group_members(
                                    es,
                                    groups@[h].key@,
                                    (n + 1) as nat,
                                )
                            } by {
                                if h < old_groups.len() {
                                    assert(groups@[h] == old_groups[h]);
                                    assert(keys.contains(keys[h]));
                                }
                            }
                        }
                    },
                }
            },
        }
        n += 1;
    }
    groups
}

/// A call of a tool within a transcript.
struct UseRef<'a> {
    id: &'a String,
    name: &'a String,
    input: &'a Json,
}

spec fn use_models(s: Seq<UseRef>) -> Seq<UseModel> {
    s.map_values(|u: UseRef| UseModel { id: u.id@, name: u.name@, input: u.input@ })
}

spec fn result_refs(s: Seq<&ToolResultBlock>) -> Seq<ResultModel> {
    s.map_values(|r: &ToolResultBlock| r@)
}

fn push_uses<'a>(blocks: &'a Vec<AssistantBlock>, out: &mut Vec<UseRef<'a>>)
    ensures
        use_models(final(out)@) == use_models(old(out)@) + uses_in(
            transcript::block_models(blocks@),
            blocks@.len(),
        ),
{
    let ghost bs = transcript::block_models(blocks@);
    let ghost start = use_models(out@);
    assert(start + uses_in(bs, 0) =~= start);
    let mut k: usize = 0;
    while k < blocks.len()
        invariant
            k <= blocks.len(),
            bs == transcript::block_models(blocks@),
            use_models(out@) == start + uses_in(bs, k as nat),
        decreases blocks.len() - k,
    {
        assert(bs[k as int] == blocks@[k as int]@);
        match &blocks[k] {
            AssistantBlock::ToolUse { id, name, input } => {
                let ghost held = use_models(out@);
                let ghost x = UseModel { id: id@, name: name@, input: input@ };
                out.push(UseRef { id, name, input });
                assert(use_models(out@) =~= held.push(x));
                assert(held.push(x) =~= start + uses_in(bs, k as nat).push(x));
            },
            _ => {},
        }
        k += 1;
    }
}

fn collect_uses<'a>(entries: &Vec<&'a Entry>) -> (r: Vec<UseRef<'a>>)
    ensures
        use_models(r@) == all_uses(chain_models(entries@), entries@.len()),
{
    let ghost es = chain_models(entries@);
    let mut out: Vec<UseRef<'a>> = Vec::new();
    assert(use_models(out@) =~= Seq::empty());
    let mut n: usize = 0;
    while n < entries.len()
        invariant
            n <= entries.len(),
            es == chain_models(entries@),
            use_models(out@) == all_uses(es, n as nat),
        decreases entries.len() - n,
    {
        let e: &'a Entry = entries[n];
        assert(es[n as int] == e@);
        let ghost held = use_models(out@);
        match &e.payload {
            Payload::Assistant(m) => {
                push_uses(&m.blocks, &mut out);
                assert(transcript::block_models(m.blocks@).len() == m.blocks@.len());
            },
            _ => {
                assert(held + Seq::<UseModel>::empty() =~= held);
            },
        }
        n += 1;
    }
    out
}

fn collect_results<'a>(entries: &Vec<&'a Entry>) -> (r: Vec<&'a ToolResultBlock>)
    ensures
        result_refs(r@) == all_results(chain_models(entries@), entries@.len()),
{
    let ghost es = chain_models(entries@);
    let mut out: Vec<&'a ToolResultBlock> = Vec::new();
    assert(result_refs(out@) =~= Seq::empty());
    let mut n: usize = 0;
    while n < entries.len()
        invariant
            n <= entries.len(),
            es == chain_models(entries@),
            result_refs(out@) == all_results(es, n as nat),
        decreases entries.len() - n,
    {
        let e: &'a Entry = entries[n];
        assert(es[n as int] == e@);
        let ghost held = result_refs(out@);
        match &e.payload {
            Payload::User(m) => {
                let ghost rs = transcript::result_models(m.tool_results@);
                assert(held + rs.take(0) =~= held);
                let mut k: usize = 0;
                while k < m.tool_results.len()
                    invariant
                        k <= m.tool_results.len(),
                        rs == transcript::result_models(m.tool_results@),
                        result_refs(out@) == held + rs.take(k as int),
                    decreases m.tool_results.len() - k,
                {
                    assert(rs[k as int] == m.tool_results@[k as int]@);
                    let ghost now = result_refs(out@);
                    out.push(&m.tool_results[k]);
                    assert(result_refs(out@) =~= now.push(rs[k as int]));
                    k += 1;
                    assert(result_refs(out@) =~= held + rs.take(k as int));
                }
                assert(rs.take(rs.len() as int) =~= rs);
            },
            _ => {
                assert(held + Seq::<ResultModel>::empty() =~= held);
            },
        }
        n += 1;
    }
    out
}

fn index_results(results: &Vec<&ToolResultBlock>) -> (r: StringHashMap<usize>)
    ensures
        textset::is_first_index(r@, result_ids(result_refs(results@))),
{
    let ghost ids = result_ids(result_refs(results@));
    let mut map: StringHashMap<usize> = StringHashMap::new();
    assert(ids.take(0) =~= Seq::empty());
    let mut k: usize = 0;
    while k < results.len()
        invariant
            k <= results.len(),
            ids == result_ids(result_refs(results@)),
            textset::is_first_index(map@, ids.take(k as int)),
        decreases results.len() - k,
    {
        assert(ids[k as int] == results@[k as int].tool_use_id@);
        note_first(&mut map, results[k].tool_use_id.as_str(), k);
        assert(ids.take(k + 1) =~= ids.take(k as int).push(ids[k as int]));
        k += 1;
    }
    assert(ids.take(ids.len() as int) =~= ids);
    map
}

fn index_uses(uses: &Vec<UseRef>) -> (r: StringHashMap<usize>)
    ensures
        textset::is_first_index(r@, use_ids(use_models(uses@))),
{
    let ghost ids = use_ids(use_models(uses@));
    let mut map: StringHashMap<usize> = StringHashMap::new();
    assert(ids.take(0) =~= Seq::empty());
    let mut k: usize = 0;
    while k < uses.len()
        invariant
            k <= uses.len(),
            ids == use_ids(use_models(uses@)),
            textset::is_first_index(map@, ids.take(k as int)),
        decreases uses.len() - k,
    {
        assert(ids[k as int] == uses@[k as int].id@);
        note_first(&mut map, uses[k].id.as_str(), k);
        assert(ids.take(k + 1) =~= ids.take(k as int).push(ids[k as int]));
        k += 1;
    }
    assert(ids.take(ids.len() as int) =~= ids);
    map
}

fn index_entries(entries: &Vec<&Entry>) -> (r: StringHashMap<usize>)
    ensures
        textset::is_first_index(r@, entry_ids(chain_models(entries@))),
{
    let ghost ids = entry_ids(chain_models(entries@));
    let mut map: StringHashMap<usize> = StringHashMap::new();
    assert(ids.take(0) =~= Seq::empty());
    let mut k: usize = 0;
    while k < entries.len()
        invariant
            k <= entries.len(),
            ids == entry_ids(chain_models(entries@)),
            textset::is_first_index(map@, ids.take(k as int)),
        decreases entries.len() - k,
    {
        assert(ids[k as int] == entries@[k as int].uuid@);
        note_first(&mut map, entries[k].uuid.as_str(), k);
        assert(ids.take(k + 1) =~= ids.take(k as int).push(ids[k as int]));
        k += 1;
    }
    assert(ids.take(ids.len() as int) =~= ids);
    map
}

/// Looks a text up in an index of first positions.
fn first_at_index(map: &StringHashMap<usize>, x: &str, Ghost(list): Ghost<Seq<Seq<char>>>) -> (r: Option<
    usize,
>)
    requires
        textset::is_first_index(map@, list),
    ensures
        match textset::position_of(list, x@, 0) {
            Some(i) => r == Some(i as usize) && 0 <= i < list.len() && i <= usize::MAX,
            None => r is None,
        },
{
    proof {
        textset::lemma_position_of(list, x@, 0);
        let _ = map@.contains_key(x@);
    }
    match map.get(x) {
        Some(i) => Some(*i),
        None => None,
    }
}

/// The first result for a tool call.
pub open spec fn result_for(rs: Seq<ResultModel>, id: Seq<char>) -> Option<ResultModel> {
    match textset::position_of(result_ids(rs), id, 0) {
        Some(i) => Some(rs[i]),
        None => None,
    }
}

/// The name of the tool that a result comes from.
pub open spec fn tool_named(us: Seq<UseModel>, id: Seq<char>) -> Seq<char> {
    match textset::position_of(use_ids(us), id, 0) {
        Some(i) => us[i].name,
        None => "unknown-tool"@,
    }
}

/// Everything of a window that planning looks things up in.
struct Ledger<'a> {
    entries: Vec<&'a Entry>,
    by_uuid: StringHashMap<usize>,
    results: Vec<&'a ToolResultBlock>,
    result_index: StringHashMap<usize>,
    uses: Vec<UseRef<'a>>,
    use_index: StringHashMap<usize>,
}

impl<'a> Ledger<'a> {
    spec fn es(self) -> Seq<ChainModel> {
        chain_models(self.entries@)
    }

    spec fn rs(self) -> Seq<ResultModel> {
        result_refs(self.results@)
    }

    spec fn us(self) -> Seq<UseModel> {
        use_models(self.uses@)
    }

    spec fn wf(self) -> bool {
        &&& textset::is_first_index(self.by_uuid@, entry_ids(self.es()))
        &&& textset::is_first_index(self.result_index@, result_ids(self.rs()))
        &&& textset::is_first_index(self.use_index@, use_ids(self.us()))
        &&& self.rs() == all_results(self.es(), self.es().len())
        &&& self.us() == all_uses(self.es(), self.es().len())
    }

    fn of(lines: &'a Vec<ParsedLine>) -> (r: Self)
        ensures
            r.wf(),
            r.es() == chain(transcript::line_models(lines@), lines@.len()),
    {
        let entries = entries_of(lines);
        let by_uuid = index_entries(&entries);
        let results = collect_results(&entries);
        let result_index = index_results(&results);
        let uses = collect_uses(&entries);
        let use_index = index_uses(&uses);
        let r = Ledger { entries, by_uuid, results, result_index, uses, use_index };
        assert(chain_models(entries@).len() == entries@.len());
        r
    }

    fn result(&self, id: &str) -> (r: Option<&'a ToolResultBlock>)
        requires
            self.wf(),
        ensures
            match r {
                Some(x) => result_for(self.rs(), id@) == Some(x@),
                None => result_for(self.rs(), id@) is None,
            },
    {
        match first_at_index(&self.result_index, id, Ghost(result_ids(self.rs()))) {
            Some(i) => {
                assert(self.rs()[i as int] == self.results@[i as int]@);
                Some(self.results[i])
            },
            None => None,
        }
    }

    fn tool_name(&self, id: &str) -> (r: String)
        requires
            self.wf(),
        ensures
            r@ == tool_named(self.us(), id@),
    {
        match first_at_index(&self.use_index, id, Ghost(use_ids(self.us()))) {
            Some(i) => {
                assert(self.us()[i as int].name == self.uses@[i as int].name@);
                self.uses[i].name.clone()
            },
            None => "unknown-tool".to_owned(),
        }
    }

    fn position(&self, uuid: &str) -> (r: Option<usize>)
        requires
            self.wf(),
        ensures
            match textset::position_of(entry_ids(self.es()), uuid@, 0) {
                Some(i) => r == Some(i as usize) && 0 <= i < self.entries@.len(),
                None => r is None,
            },
    {
        first_at_index(&self.by_uuid, uuid, Ghost(entry_ids(self.es())))
    }
}

/// An entry after which the conversation has moved on.
pub open spec fn moves_on(e: ChainModel) -> bool {
    match e.payload {
        PayloadModel::User(m) => m.texts.len() > 0 || m.compact_summary,
        PayloadModel::Assistant(_) => true,
        PayloadModel::Other(kind) => kind == OtherKind::StopHookSummary || kind
            == OtherKind::CompactBoundary,
    }
}

/// An entry at or behind position `k` shows that the conversation has moved on.
pub open spec fn moved_on(es: Seq<ChainModel>, k: int) -> bool {
    exists|i: int| k <= i < es.len() && moves_on(#[trigger] es[i])
}

/// Every tool call has a result.
pub open spec fn answered(us: Seq<UseModel>, rs: Seq<ResultModel>) -> bool {
    forall|i: int| 0 <= i < us.len() ==> result_for(rs, (#[trigger] us[i]).id) is Some
}

/// The tool calls of a response, those of its first `n` entries.
pub open spec fn group_uses(es: Seq<ChainModel>, ps: Seq<int>, n: nat) -> Seq<UseModel>
    decreases n,
{
    if n == 0 || n > ps.len() {
        Seq::empty()
    } else {
        group_uses(es, ps, (n - 1) as nat) + uses_of(es[ps[n - 1]])
    }
}

/// The response is complete: its last entry has a successor, and either all
/// tool results are there or the conversation has moved on. At the end of a
/// session every response is complete.
pub open spec fn is_closed(
    es: Seq<ChainModel>,
    rs: Seq<ResultModel>,
    us: Seq<UseModel>,
    last: int,
    final_mode: bool,
) -> bool {
    final_mode || (last + 1 < es.len() && (answered(us, rs) || moved_on(es, last + 1)))
}

fn has_moved_on(entries: &Vec<&Entry>, from: usize) -> (r: bool)
    requires
        from <= entries@.len(),
    ensures
        r == moved_on(chain_models(entries@), from as int),
{
    let ghost es = chain_models(entries@);
    let mut i: usize = from;
    while i < entries.len()
        invariant
            from <= i <= entries.len(),
            es == chain_models(entries@),
            forall|k: int| from <= k < i ==> !moves_on(#[trigger] es[k]),
        decreases entries.len() - i,
    {
        assert(es[i as int] == entries@[i as int]@);
        let moved = match &entries[i].payload {
            Payload::User(m) => {
                assert(m@.texts.len() == m.texts@.len());
                m.texts.len() > 0 || m.compact_summary
            },
            Payload::Assistant(_) => true,
            Payload::Other(kind) => *kind == OtherKind::StopHookSummary || *kind
                == OtherKind::CompactBoundary,
        };
        if moved {
            return true;
        }
        i += 1;
    }
    false
}

/// Walking the chain back from an entry until an assistant entry: the user
/// entries on the way, and that assistant entry.
pub open spec fn walk(es: Seq<ChainModel>, cursor: Option<Seq<char>>, fuel: nat, found: Seq<int>) -> (
    Seq<int>,
    Option<int>,
)
    decreases fuel,
{
    if fuel == 0 {
        (found, None)
    } else {
        match cursor {
            None => (found, None),
            Some(uuid) => match textset::position_of(entry_ids(es), uuid, 0) {
                None => (found, None),
                Some(p) => match es[p].payload {
                    PayloadModel::Assistant(_) => (found, Some(p)),
                    PayloadModel::User(_) => walk(
                        es,
                        es[p].parent_uuid,
                        (fuel - 1) as nat,
                        found.push(p),
                    ),
                    PayloadModel::Other(_) => walk(es, es[p].parent_uuid, (fuel - 1) as nat, found),
                },
            },
        }
    }
}

fn walk_back(ledger: &Ledger, first: usize) -> (r: (Vec<usize>, Option<usize>))
    requires
        ledger.wf(),
        first < ledger.entries@.len(),
    ensures
        as_ints(r.0@) == walk(
            ledger.es(),
            ledger.es()[first as int].parent_uuid,
            ledger.es().len() + 1,
            Seq::empty(),
        ).0,
        match walk(
            ledger.es(),
            ledger.es()[first as int].parent_uuid,
            ledger.es().len() + 1,
            Seq::empty(),
        ).1 {
            Some(p) => r.1 == Some(p as usize) && 0 <= p < ledger.entries@.len(),
            None => r.1 is None,
        },
        forall|i: int| 0 <= i < r.0@.len() ==> (#[trigger] r.0@[i]) < ledger.entries@.len(),
{
    let ghost es = ledger.es();
    assert(es.len() == ledger.entries@.len());
    let n: usize = ledger.entries.len();
    let mut found: Vec<usize> = Vec::new();
    let mut fuel: u128 = n as u128 + 1;
    let mut cursor: &Option<String> = &ledger.entries[first].parent_uuid;
    assert(es[first as int] == ledger.entries@[first as int]@);
    assert(as_ints(found@) =~= Seq::empty());
    let ghost goal = walk(es, es[first as int].parent_uuid, es.len() + 1, Seq::empty());
    while fuel > 0
        invariant
            ledger.wf(),
            es == ledger.es(),
            es.len() == ledger.entries@.len(),
            n == ledger.entries@.len(),
            first < n,
            fuel <= n + 1,
            goal == walk(es, es[first as int].parent_uuid, es.len() + 1, Seq::empty()),
            goal == walk(es, models::opt_text(*cursor), fuel as nat, as_ints(found@)),
            forall|i: int| 0 <= i < found@.len() ==> (#[trigger] found@[i]) < ledger.entries@.len(),
        decreases fuel,
    {
        let uuid = match cursor {
            Some(uuid) => uuid,
            None => {
                return (found, None);
            },
        };
        let p = match ledger.position(uuid.as_str()) {
            Some(p) => p,
            None => {
                return (found, None);
            },
        };
        let e: &Entry = ledger.entries[p];
        assert(es[p as int] == e@);
        match &e.payload {
            Payload::Assistant(_) => {
                return (found, Some(p));
            },
            Payload::User(_) => {
                let ghost held = as_ints(found@);
                found.push(p);
                assert(as_ints(found@) =~= held.push(p as int));
            },
            Payload::Other(_) => {},
        }
        cursor = &e.parent_uuid;
        fuel -= 1;
    }
    (found, None)
}

/// What the model was reacting to.
pub enum StimulusModel {
    Human { text: Seq<char>, meta: bool },
    CompactSummary(Seq<char>),
    ToolResult(ResultModel),
}

/// What the texts of a user entry were to the model.
pub open spec fn text_stimulus(m: UserModel, text: Seq<char>) -> StimulusModel {
    if m.compact_summary {
        StimulusModel::CompactSummary(text)
    } else {
        StimulusModel::Human { text, meta: m.meta }
    }
}

/// The stimuli of an entry: its texts, then its tool results.
pub open spec fn entry_stimuli(e: ChainModel) -> Seq<StimulusModel> {
    match e.payload {
        PayloadModel::User(m) => m.texts.map_values(|t: Seq<char>| text_stimulus(m, t))
            + m.tool_results.map_values(|r: ResultModel| StimulusModel::ToolResult(r)),
        _ => Seq::empty(),
    }
}

/// The stimuli of entries that were found walking back, the last found first.
pub open spec fn stimuli(es: Seq<ChainModel>, found: Seq<int>, n: nat) -> Seq<StimulusModel>
    decreases n,
{
    if n == 0 || n > found.len() {
        Seq::empty()
    } else {
        stimuli(es, found, (n - 1) as nat) + entry_stimuli(es[found[found.len() - n]])
    }
}

/// A stimulus as a part of the prompt.
pub open spec fn shown_stimulus(s: StimulusModel, us: Seq<UseModel>) -> Seq<char> {
    match s {
        StimulusModel::Human { text, meta } => if meta {
            "[meta] "@ + bounded::bounded(text, MAX_PROMPT_BYTES as int)
        } else {
            bounded::bounded(text, MAX_PROMPT_BYTES as int)
        },
        StimulusModel::CompactSummary(text) => "[compaction summary]\n"@ + bounded::bounded(
            text,
            MAX_PROMPT_BYTES as int,
        ),
        StimulusModel::ToolResult(r) => "[tool_result "@ + tool_named(us, r.tool_use_id) + (
        if r.is_error {
            " error"@
        } else {
            ""@
        }) + "] "@ + bounded::bounded_ends(
            r.content,
            TOOL_RESULT_HEAD_BYTES as int,
            TOOL_RESULT_TAIL_BYTES as int,
        ),
    }
}

/// A stimulus that a human wrote.
pub open spec fn is_human(s: StimulusModel) -> bool {
    s matches StimulusModel::Human { meta, .. } && !meta
}

/// The prompt that stimuli make, and who wrote it.
pub open spec fn prompt_of(ss: Seq<StimulusModel>, us: Seq<UseModel>) -> (Seq<char>, Author) {
    (
        if ss.len() == 0 {
            "[no stimulus recorded]"@
        } else {
            bounded::bounded(
                text::joined(
                    ss.map_values(|s: StimulusModel| shown_stimulus(s, us)),
                    "\n\n"@,
                ),
                MAX_PROMPT_BYTES as int,
            )
        },
        if exists|i: int| 0 <= i < ss.len() && is_human(#[trigger] ss[i]) {
            Author::Human
        } else {
            Author::System
        },
    )
}

/// The parts of a prompt under construction.
struct Prompt {
    parts: Vec<String>,
    human: bool,
}

spec fn prompt_holds(p: Prompt, ss: Seq<StimulusModel>, us: Seq<UseModel>) -> bool {
    &&& p.parts.deep_view() == ss.map_values(|s: StimulusModel| shown_stimulus(s, us))
    &&& p.human == exists|i: int| 0 <= i < ss.len() && is_human(#[trigger] ss[i])
}

proof fn lemma_prompt_grows(p: Prompt, q: Prompt, ss: Seq<StimulusModel>, us: Seq<UseModel>, s: StimulusModel)
    requires
        prompt_holds(p, ss, us),
        q.parts.deep_view() == p.parts.deep_view().push(shown_stimulus(s, us)),
        q.human == (p.human || is_human(s)),
    ensures
        prompt_holds(q, ss.push(s), us),
{
    let ts = ss.push(s);
    assert(ts.map_values(|x: StimulusModel| shown_stimulus(x, us)) =~= ss.map_values(
        |x: StimulusModel| shown_stimulus(x, us),
    ).push(shown_stimulus(s, us)));
    if p.human {
        let i = choose|i: int| 0 <= i < ss.len() && is_human(#[trigger] ss[i]);
        assert(is_human(ts[i]));
    }
    if is_human(s) {
        assert(is_human(ts[ss.len() as int]));
    }
    if exists|i: int| 0 <= i < ts.len() && is_human(#[trigger] ts[i]) {
        let i = choose|i: int| 0 <= i < ts.len() && is_human(#[trigger] ts[i]);
        if i < ss.len() {
            assert(is_human(ss[i]));
        }
    }
}

fn add_entry_stimuli(ledger: &Ledger, m: &UserMessage, p: &mut Prompt, Ghost(ss): Ghost<
    Seq<StimulusModel>,
>)
    requires
        ledger.wf(),
        prompt_holds(*old(p), ss, ledger.us()),
    ensures
        prompt_holds(
            *final(p),
            ss + (m@.texts.map_values(|t: Seq<char>| text_stimulus(m@, t))
                + m@.tool_results.map_values(|r: ResultModel| StimulusModel::ToolResult(r))),
            ledger.us(),
        ),
{
    let ghost us = ledger.us();
    let ghost ts = m@.texts;
    let ghost first = ts.map_values(|t: Seq<char>| text_stimulus(m@, t));
    let ghost rs = m@.tool_results;
    let ghost second = rs.map_values(|r: ResultModel| StimulusModel::ToolResult(r));
    assert(ss + first.take(0) =~= ss);
    let mut k: usize = 0;
    while k < m.texts.len()
        invariant
            k <= m.texts.len(),
            us == ledger.us(),
            ts == m.texts.deep_view(),
            ts == m@.texts,
            first == ts.map_values(|t: Seq<char>| text_stimulus(m@, t)),
            prompt_holds(*p, ss + first.take(k as int), us),
        decreases m.texts.len() - k,
    {
        assert(ts[k as int] == m.texts@[k as int]@);
        let ghost before = *p;
        let text = m.texts[k].as_str();
        let shown = bounded_text(text, MAX_PROMPT_BYTES);
        let part = if m.compact_summary {
            glue("[compaction summary]\n", shown.as_str())
        } else if m.meta {
            glue("[meta] ", shown.as_str())
        } else {
            p.human = true;
            shown
        };
        let ghost x = part@;
        p.parts.push(part);
        proof {
            assert(p.parts.deep_view() =~= before.parts.deep_view().push(x));
            lemma_prompt_grows(before, *p, ss + first.take(k as int), us, first[k as int]);
            assert(ss + first.take(k + 1) =~= (ss + first.take(k as int)).push(first[k as int]));
        }
        k += 1;
    }
    assert(first.take(first.len() as int) =~= first);
    assert(ss + first + second.take(0) =~= ss + first);
    let mut k: usize = 0;
    while k < m.tool_results.len()
        invariant
            k <= m.tool_results.len(),
            ledger.wf(),
            us == ledger.us(),
            rs == transcript::result_models(m.tool_results@),
            second == rs.map_values(|r: ResultModel| StimulusModel::ToolResult(r)),
            prompt_holds(*p, ss + first + second.take(k as int), us),
        decreases m.tool_results.len() - k,
    {
        let result = &m.tool_results[k];
        assert(rs[k as int] == result@);
        let ghost before = *p;
        let name = ledger.tool_name(result.tool_use_id.as_str());
        let mut part = glue("[tool_result ", name.as_str());
        part.append(
            if result.is_error {
                " error"
            } else {
                ""
            },
        );
        part.append("] ");
        let body = bounded_head_tail(
            result.content.as_str(),
            TOOL_RESULT_HEAD_BYTES,
            TOOL_RESULT_TAIL_BYTES,
        );
        part.append(body.as_str());
        let ghost x = part@;
        p.parts.push(part);
        proof {
            assert(p.parts.deep_view() =~= before.parts.deep_view().push(x));
            lemma_prompt_grows(
                before,
                *p,
                ss + first + second.take(k as int),
                us,
                second[k as int],
            );
            assert(ss + first + second.take(k + 1) =~= (ss + first + second.take(k as int)).push(
                second[k as int],
            ));
        }
        k += 1;
    }
    proof {
        assert(second.take(second.len() as int) =~= second);
        assert(ss + first + second =~= ss + (first + second));
    }
}

/// Renders the stimuli that were found walking back.
fn render_stimuli(ledger: &Ledger, found: &Vec<usize>) -> (r: (String, Author))
    requires
        ledger.wf(),
        forall|i: int| 0 <= i < found@.len() ==> (#[trigger] found@[i]) < ledger.entries@.len(),
    ensures
        (r.0@, r.1) == prompt_of(
            stimuli(ledger.es(), as_ints(found@), found@.len()),
            ledger.us(),
        ),
{
    let ghost es = ledger.es();
    let ghost us = ledger.us();
    let ghost fs = as_ints(found@);
    let mut p = Prompt { parts: Vec::new(), human: false };
    assert(p.parts.deep_view() =~= Seq::<StimulusModel>::empty().map_values(
        |s: StimulusModel| shown_stimulus(s, us),
    ));
    let n: usize = found.len();
    let mut k: usize = 0;
    while k < n
        invariant
            k <= n,
            n == found@.len(),
            ledger.wf(),
            es == ledger.es(),
            us == ledger.us(),
            fs == as_ints(found@),
            forall|i: int| 0 <= i < found@.len() ==> (#[trigger] found@[i]) < ledger.entries@.len(),
            prompt_holds(p, stimuli(es, fs, k as nat), us),
        decreases n - k,
    {
        let at: usize = found[n - k - 1];
        assert(fs[n - (k + 1)] == at);
        let e: &Entry = ledger.entries[at];
        assert(es[at as int] == e@);
        let ghost ss = stimuli(es, fs, k as nat);
        match &e.payload {
            Payload::User(m) => {
                add_entry_stimuli(ledger, m, &mut p, Ghost(ss));
            },
            _ => {
                assert(ss + Seq::<StimulusModel>::empty() =~= ss);
            },
        }
        k += 1;
    }
    let ghost all = stimuli(es, fs, n as nat);
    assert(p.parts.deep_view().len() == all.len());
    assert(p.parts.deep_view().len() == p.parts@.len());
    let author = if p.human {
        Author::Human
    } else {
        Author::System
    };
    if p.parts.len() == 0 {
        ("[no stimulus recorded]".to_owned(), author)
    } else {
        let joined = join_texts(&p.parts, "\n\n");
        (bounded_text(joined.as_str(), MAX_PROMPT_BYTES), author)
    }
}

/// The texts among the first `n` blocks.
pub open spec fn texts_in(blocks: Seq<BlockModel>, n: nat) -> Seq<Seq<char>>
    decreases n,
{
    if n == 0 || n > blocks.len() {
        Seq::empty()
    } else {
        let before = texts_in(blocks, (n - 1) as nat);
        match blocks[n - 1] {
            BlockModel::Text(t) => before.push(t),
            _ => before,
        }
    }
}

/// The thoughts among the first `n` blocks.
pub open spec fn thoughts_in(blocks: Seq<BlockModel>, n: nat) -> Seq<Seq<char>>
    decreases n,
{
    if n == 0 || n > blocks.len() {
        Seq::empty()
    } else {
        let before = thoughts_in(blocks, (n - 1) as nat);
        match blocks[n - 1] {
            BlockModel::Thinking(t) => before.push(t),
            _ => before,
        }
    }
}

/// The blocks of an entry.
pub open spec fn blocks_of(e: ChainModel) -> Seq<BlockModel> {
    match e.payload {
        PayloadModel::Assistant(m) => m.blocks,
        _ => Seq::empty(),
    }
}

/// The texts of the first `n` entries of a response.
pub open spec fn group_texts(es: Seq<ChainModel>, ps: Seq<int>, n: nat) -> Seq<Seq<char>>
    decreases n,
{
    if n == 0 || n > ps.len() {
        Seq::empty()
    } else {
        let bs = blocks_of(es[ps[n - 1]]);
        group_texts(es, ps, (n - 1) as nat) + texts_in(bs, bs.len())
    }
}

/// The thoughts of the first `n` entries of a response.
pub open spec fn group_thoughts(es: Seq<ChainModel>, ps: Seq<int>, n: nat) -> Seq<Seq<char>>
    decreases n,
{
    if n == 0 || n > ps.len() {
        Seq::empty()
    } else {
        let bs = blocks_of(es[ps[n - 1]]);
        group_thoughts(es, ps, (n - 1) as nat) + thoughts_in(bs, bs.len())
    }
}

/// The model that the entries of a response name first.
pub open spec fn group_model(es: Seq<ChainModel>, ps: Seq<int>, k: int) -> Option<Seq<char>>
    decreases ps.len() - k,
{
    if k < 0 || k >= ps.len() {
        None
    } else {
        match es[ps[k]].payload {
            PayloadModel::Assistant(m) => match m.model {
                Some(s) => Some(s),
                None => group_model(es, ps, k + 1),
            },
            _ => group_model(es, ps, k + 1),
        }
    }
}

/// Texts that are not blank, joined and bounded; none where there is none.
pub open spec fn joined_within(parts: Seq<Seq<char>>, max: int) -> Option<Seq<char>> {
    let shown = parts.filter(|p: Seq<char>| text::trimmed(p).len() > 0);
    if shown.len() == 0 {
        None
    } else {
        Some(bounded::bounded(text::joined(shown, "\n\n"@), max))
    }
}

/// Joins the texts that are not blank.
pub fn join_bounded(parts: &Vec<String>, max: usize) -> (r: Option<String>)
    ensures
        models::opt_text(r) == joined_within(parts.deep_view(), max as int),
{
    let ghost s = parts.deep_view();
    let ghost keep = |p: Seq<char>| text::trimmed(p).len() > 0;
    let mut shown: Vec<String> = Vec::new();
    let mut k: usize = 0;
    assert(shown.deep_view() =~= s.take(0).filter(keep)) by {
        reveal(Seq::filter);
    }
    while k < parts.len()
        invariant
            k <= parts.len(),
            s == parts.deep_view(),
            keep == (|p: Seq<char>| text::trimmed(p).len() > 0),
            shown.deep_view() == s.take(k as int).filter(keep),
        decreases parts.len() - k,
    {
        proof {
            reveal(Seq::filter);
            assert(s[k as int] == parts@[k as int]@);
            assert(s.take(k + 1).drop_last() =~= s.take(k as int));
            assert(s.take(k + 1).last() == s[k as int]);
        }
        if !is_blank(parts[k].as_str()) {
            let ghost held = shown.deep_view();
            shown.push(parts[k].clone());
            assert(shown.deep_view() =~= held.push(s[k as int]));
        }
        k += 1;
    }
    assert(s.take(s.len() as int) =~= s);
    assert(shown.deep_view().len() == shown@.len());
    if shown.len() == 0 {
        None
    } else {
        Some(bounded_text(join_texts(&shown, "\n\n").as_str(), max))
    }
}

fn push_words(blocks: &Vec<AssistantBlock>, texts: &mut Vec<String>, thoughts: &mut Vec<String>)
    ensures
        final(texts).deep_view() == old(texts).deep_view() + texts_in(
            transcript::block_models(blocks@),
            blocks@.len(),
        ),
        final(thoughts).deep_view() == old(thoughts).deep_view() + thoughts_in(
            transcript::block_models(blocks@),
            blocks@.len(),
        ),
{
    let ghost bs = transcript::block_models(blocks@);
    let ghost t0 = texts.deep_view();
    let ghost h0 = thoughts.deep_view();
    assert(t0 + texts_in(bs, 0) =~= t0);
    assert(h0 + thoughts_in(bs, 0) =~= h0);
    let mut k: usize = 0;
    while k < blocks.len()
        invariant
            k <= blocks.len(),
            bs == transcript::block_models(blocks@),
            texts.deep_view() == t0 + texts_in(bs, k as nat),
            thoughts.deep_view() == h0 + thoughts_in(bs, k as nat),
        decreases blocks.len() - k,
    {
        assert(bs[k as int] == blocks@[k as int]@);
        match &blocks[k] {
            AssistantBlock::Text(t) => {
                let ghost held = texts.deep_view();
                texts.push(t.clone());
                assert(texts.deep_view() =~= held.push(t@));
                assert(held.push(t@) =~= t0 + texts_in(bs, k as nat).push(t@));
            },
            AssistantBlock::Thinking(t) => {
                let ghost held = thoughts.deep_view();
                thoughts.push(t.clone());
                assert(thoughts.deep_view() =~= held.push(t@));
                assert(held.push(t@) =~= h0 + thoughts_in(bs, k as nat).push(t@));
            },
            _ => {},
        }
        k += 1;
    }
}

/// The positions name entries.
spec fn positions_valid(ps: Seq<usize>, n: nat) -> bool {
    forall|i: int| 0 <= i < ps.len() ==> (#[trigger] ps[i]) < n
}

/// What a response says.
struct Words<'a> {
    uses: Vec<UseRef<'a>>,
    texts: Vec<String>,
    thoughts: Vec<String>,
    model: Option<String>,
}

fn words_of<'a>(entries: &Vec<&'a Entry>, positions: &Vec<usize>) -> (r: Words<'a>)
    requires
        positions_valid(positions@, entries@.len()),
    ensures
        use_models(r.uses@) == group_uses(
            chain_models(entries@),
            as_ints(positions@),
            positions@.len(),
        ),
        r.texts.deep_view() == group_texts(
            chain_models(entries@),
            as_ints(positions@),
            positions@.len(),
        ),
        r.thoughts.deep_view() == group_thoughts(
            chain_models(entries@),
            as_ints(positions@),
            positions@.len(),
        ),
        models::opt_text(r.model) == group_model(
            chain_models(entries@),
            as_ints(positions@),
            0,
        ),
{
    let ghost es = chain_models(entries@);
    let ghost ps = as_ints(positions@);
    let mut uses: Vec<UseRef<'a>> = Vec::new();
    let mut texts: Vec<String> = Vec::new();
    let mut thoughts: Vec<String> = Vec::new();
    let mut model: Option<String> = None;
    assert(use_models(uses@) =~= Seq::empty());
    assert(texts.deep_view() =~= Seq::empty());
    assert(thoughts.deep_view() =~= Seq::empty());
    let mut n: usize = 0;
    while n < positions.len()
        invariant
            n <= positions.len(),
            es == chain_models(entries@),
            ps == as_ints(positions@),
            positions_valid(positions@, entries@.len()),
            use_models(uses@) == group_uses(es, ps, n as nat),
            texts.deep_view() == group_texts(es, ps, n as nat),
            thoughts.deep_view() == group_thoughts(es, ps, n as nat),
            model is Some ==> group_model(es, ps, 0) == models::opt_text(model),
            model is None ==> group_model(es, ps, 0) == group_model(es, ps, n as int),
        decreases positions.len() - n,
    {
        let at: usize = positions[n];
        assert(ps[n as int] == at);
        assert(at < entries@.len());
        let e: &'a Entry = entries[at];
        assert(es[at as int] == e@);
        let ghost u0 = use_models(uses@);
        let ghost t0 = texts.deep_view();
        let ghost h0 = thoughts.deep_view();
        match &e.payload {
            Payload::Assistant(m) => {
                if model.is_none() {
                    model = copy_opt_text(&m.model);
                }
                push_uses(&m.blocks, &mut uses);
                push_words(&m.blocks, &mut texts, &mut thoughts);
                assert(transcript::block_models(m.blocks@).len() == m.blocks@.len());
            },
            _ => {
                assert(u0 + Seq::<UseModel>::empty() =~= u0);
                assert(t0 + Seq::<Seq<char>>::empty() =~= t0);
                assert(h0 + Seq::<Seq<char>>::empty() =~= h0);
                assert(texts_in(Seq::empty(), 0) =~= Seq::empty());
                assert(thoughts_in(Seq::empty(), 0) =~= Seq::empty());
            },
        }
        n += 1;
    }
    Words { uses, texts, thoughts, model }
}

/// The executions of the first `n` tool calls, and the bytes left for arguments.
pub open spec fn executions(us: Seq<UseModel>, rs: Seq<ResultModel>, id: InteractionId, n: nat) -> (
    Seq<ToolModel>,
    int,
)
    decreases n,
{
    if n == 0 || n > us.len() {
        (Seq::empty(), MAX_TOOL_ARGUMENTS_TOTAL_BYTES as int)
    } else {
        let (before, budget) = executions(us, rs, id, (n - 1) as nat);
        let u = us[n - 1];
        let (arguments, left) = arguments_within(u.input, budget);
        (
            before.push(
                ToolModel {
                    id: None,
                    interaction_id: id,
                    tool_protocol: if text::has_prefix(u.name, "mcp__"@) {
                        "mcp"@
                    } else {
                        "native"@
                    },
                    tool_name: u.name,
                    arguments,
                    status: if result_for(rs, u.id) matches Some(r) && !r.is_error {
                        ToolStatus::Success
                    } else {
                        ToolStatus::Failure
                    },
                },
            ),
            left,
        )
    }
}

/// Two context items that speak of the same lines of the same file.
pub open spec fn same_place(a: ContextModel, b: ContextModel) -> bool {
    a.file_path == b.file_path && a.start_line == b.start_line && a.end_line == b.end_line
}

/// The context items of the first `n` tool calls, each place once.
pub open spec fn contexts(
    us: Seq<UseModel>,
    root: Seq<char>,
    aliases: Seq<(Seq<char>, Seq<char>)>,
    id: InteractionId,
    n: nat,
) -> Seq<ContextModel>
    decreases n,
{
    if n == 0 || n > us.len() {
        Seq::empty()
    } else {
        let before = contexts(us, root, aliases, id, (n - 1) as nat);
        match context_of(us[n - 1].name, us[n - 1].input, root, aliases, id) {
            None => before,
            Some(item) => if exists|i: int|
                0 <= i < before.len() && same_place(#[trigger] before[i], item) {
                before
            } else {
                before.push(item)
            },
        }
    }
}

fn place_known(items: &Vec<ContextItem>, item: &ContextItem) -> (r: bool)
    ensures
        r == exists|i: int|
            0 <= i < items@.len() && same_place(
                #[trigger] models::context_models(items@)[i],
                item@,
            ),
{
    let ghost ms = models::context_models(items@);
    let mut i: usize = 0;
    while i < items.len()
        invariant
            i <= items.len(),
            ms == models::context_models(items@),
            forall|k: int| 0 <= k < i ==> !same_place(#[trigger] ms[k], item@),
        decreases items.len() - i,
    {
        assert(ms[i as int] == items@[i as int]@);
        if items[i].file_path == item.file_path && items[i].start_line == item.start_line
            && items[i].end_line == item.end_line {
            assert(same_place(ms[i as int], item@));
            return true;
        }
        i += 1;
    }
    false
}

/// Inputs the planner needs beyond the parsed lines.
pub struct PlanInput<'a> {
    /// The word for the harness.
    pub harness: &'a str,
    pub session_id: &'a str,
    /// Canonical root of the capturing worktree.
    pub worktree_root: &'a str,
    /// Spellings recorded in the transcript, paired with the canonical directory
    /// they resolve to inside the worktree.
    pub path_aliases: &'a Vec<PathAlias>,
    /// At the end of a session every response is complete, missing tool results
    /// are failures, and nothing stays pending.
    pub final_mode: bool,
    /// The moment of planning, for responses that carry none.
    pub now: Timestamp,
}

/// An interaction that a response becomes.
#[derive(Debug)]
pub struct PlannedInteraction {
    pub id: InteractionId,
    pub response_key: String,
    pub parent_id: Option<InteractionId>,
    pub timestamp: Timestamp,
    pub author: Author,
    pub user_prompt: String,
    pub model_name: Option<String>,
    pub model_cot: Option<String>,
    pub model_response: Option<String>,
    pub tool_executions: Vec<ToolExecution>,
    pub context_items: Vec<ContextItem>,
    /// Byte offset of the response's first entry.
    pub first_offset: u64,
}

/// The contents of [`PlannedInteraction`].
#[verifier::ext_equal]
pub struct PlannedModel {
    pub id: InteractionId,
    pub response_key: Seq<char>,
    pub parent_id: Option<InteractionId>,
    pub timestamp: Timestamp,
    pub author: Author,
    pub user_prompt: Seq<char>,
    pub model_name: Option<Seq<char>>,
    pub model_cot: Option<Seq<char>>,
    pub model_response: Option<Seq<char>>,
    pub tool_executions: Seq<ToolModel>,
    pub context_items: Seq<ContextModel>,
    pub first_offset: u64,
}

impl View for PlannedInteraction {
    type V = PlannedModel;

    open spec fn view(&self) -> PlannedModel {
        PlannedModel {
            id: self.id,
            response_key: self.response_key@,
            parent_id: self.parent_id,
            timestamp: self.timestamp,
            author: self.author,
            user_prompt: self.user_prompt@,
            model_name: models::opt_text(self.model_name),
            model_cot: models::opt_text(self.model_cot),
            model_response: models::opt_text(self.model_response),
            tool_executions: models::tool_models(self.tool_executions@),
            context_items: models::context_models(self.context_items@),
            first_offset: self.first_offset,
        }
    }
}

/// The contents of planned interactions.
pub open spec fn planned_models(s: Seq<PlannedInteraction>) -> Seq<PlannedModel> {
    s.map_values(|x: PlannedInteraction| x@)
}

/// What is captured of a window.
#[derive(Debug)]
pub struct Plan {
    pub interactions: Vec<PlannedInteraction>,
    /// Responses still streaming or awaiting tool results.
    pub pending_responses: usize,
    /// Where the next read should start: the first byte of the last closed
    /// response, so its tool names and results stay in view for the next
    /// response's stimulus.
    pub cursor_offset: u64,
    pub title: Option<String>,
    /// First human prompt in the window, for conversation titling.
    pub first_human_prompt: Option<String>,
}

/// The contents of [`Plan`].
#[verifier::ext_equal]
pub struct PlanOutcome {
    pub interactions: Seq<PlannedModel>,
    pub pending_responses: int,
    pub cursor_offset: u64,
    pub title: Option<Seq<char>>,
    pub first_human_prompt: Option<Seq<char>>,
}

impl View for Plan {
    type V = PlanOutcome;

    open spec fn view(&self) -> PlanOutcome {
        PlanOutcome {
            interactions: planned_models(self.interactions@),
            pending_responses: self.pending_responses as int,
            cursor_offset: self.cursor_offset,
            title: models::opt_text(self.title),
            first_human_prompt: models::opt_text(self.first_human_prompt),
        }
    }
}

/// The interaction that a closed response becomes.
pub open spec fn planned(es: Seq<ChainModel>, key: Seq<char>, input: PlanInput) -> PlannedModel {
    let ps = group_members(es, key, es.len());
    let rs = all_results(es, es.len());
    let us = group_uses(es, ps, ps.len());
    let first = es[ps[0]];
    let (found, parent) = walk(es, first.parent_uuid, es.len() + 1, Seq::empty());
    let (user_prompt, author) = prompt_of(
        stimuli(es, found, found.len()),
        all_uses(es, es.len()),
    );
    let id = response_id(input.harness@, input.session_id@, key);
    PlannedModel {
        id,
        response_key: key,
        parent_id: match parent {
            Some(p) => Some(response_id(input.harness@, input.session_id@, response_key(es[p])->0)),
            None => None,
        },
        timestamp: match first.timestamp {
            Some(t) => t,
            None => input.now,
        },
        author,
        user_prompt,
        model_name: group_model(es, ps, 0),
        model_cot: joined_within(group_thoughts(es, ps, ps.len()), MAX_TEXT_BYTES as int),
        model_response: joined_within(group_texts(es, ps, ps.len()), MAX_TEXT_BYTES as int),
        tool_executions: executions(us, rs, id, us.len()).0,
        context_items: contexts(
            us,
            input.worktree_root@,
            alias_models(input.path_aliases@),
            id,
            us.len(),
        ),
        first_offset: first.offset,
    }
}

/// The response with this key is complete.
pub open spec fn response_closed(es: Seq<ChainModel>, key: Seq<char>, final_mode: bool) -> bool {
    let ps = group_members(es, key, es.len());
    is_closed(
        es,
        all_results(es, es.len()),
        group_uses(es, ps, ps.len()),
        ps.last(),
        final_mode,
    )
}

/// Planning the first `n` responses.
pub open spec fn planned_through(
    es: Seq<ChainModel>,
    keys: Seq<Seq<char>>,
    n: nat,
    input: PlanInput,
    start: PlanOutcome,
) -> PlanOutcome
    decreases n,
{
    if n == 0 || n > keys.len() {
        start
    } else {
        let before = planned_through(es, keys, (n - 1) as nat, input, start);
        let key = keys[n - 1];
        if response_closed(es, key, input.final_mode) {
            let p = planned(es, key, input);
            PlanOutcome {
                interactions: before.interactions.push(p),
                cursor_offset: p.first_offset,
                ..before
            }
        } else {
            PlanOutcome { pending_responses: before.pending_responses + 1, ..before }
        }
    }
}

/// What is captured of a window.
pub open spec fn plan_of_window(lines: Seq<LineModel>, window_start: u64, input: PlanInput) -> PlanOutcome {
    let es = chain(lines, lines.len());
    let keys = group_keys(es, es.len());
    planned_through(
        es,
        keys,
        keys.len(),
        input,
        PlanOutcome {
            interactions: Seq::empty(),
            pending_responses: 0,
            cursor_offset: window_start,
            title: last_title(lines, lines.len()),
            first_human_prompt: first_prompt(es, 0),
        },
    )
}

pub proof fn lemma_members_valid(es: Seq<ChainModel>, key: Seq<char>, n: nat)
    requires
        n <= es.len(),
    ensures
        forall|i: int|
            0 <= i < group_members(es, key, n).len() ==> 0 <= (#[trigger] group_members(
                es,
                key,
                n,
            )[i]) < n,
    decreases n,
{
    if n > 0 {
        lemma_members_valid(es, key, (n - 1) as nat);
        let before = group_members(es, key, (n - 1) as nat);
        let now = group_members(es, key, n);
        assert forall|i: int| 0 <= i < now.len() implies 0 <= (#[trigger] now[i]) < n by {
            if i < before.len() {
                assert(0 <= before[i] < n - 1);
            }
        }
    }
}

pub proof fn lemma_members_exist(es: Seq<ChainModel>, key: Seq<char>, n: nat)
    requires
        n <= es.len(),
        group_keys(es, n).contains(key),
    ensures
        group_members(es, key, n).len() > 0,
    decreases n,
{
    if n > 0 {
        let before = group_keys(es, (n - 1) as nat);
        let now = group_keys(es, n);
        if response_key(es[n - 1]) != Some(key) {
            let k = now.index_of(key);
            assert(before.contains(key)) by {
                if k < before.len() {
                    assert(before[k] == key);
                }
            }
            lemma_members_exist(es, key, (n - 1) as nat);
        }
    }
}

fn all_answered(ledger: &Ledger, uses: &Vec<UseRef>) -> (r: bool)
    requires
        ledger.wf(),
    ensures
        r == answered(use_models(uses@), ledger.rs()),
{
    let ghost us = use_models(uses@);
    let mut i: usize = 0;
    while i < uses.len()
        invariant
            i <= uses.len(),
            ledger.wf(),
            us == use_models(uses@),
            forall|k: int|
                0 <= k < i ==> result_for(ledger.rs(), (#[trigger] us[k]).id) is Some,
        decreases uses.len() - i,
    {
        assert(us[i as int].id == uses@[i as int].id@);
        if ledger.result(uses[i].id.as_str()).is_none() {
            assert(result_for(ledger.rs(), us[i as int].id) is None);
            return false;
        }
        i += 1;
    }
    true
}

fn execute_all(ledger: &Ledger, uses: &Vec<UseRef>, id: InteractionId) -> (r: Vec<ToolExecution>)
    requires
        ledger.wf(),
    ensures
        models::tool_models(r@) == executions(
            use_models(uses@),
            ledger.rs(),
            id,
            uses@.len(),
        ).0,
{
    let ghost us = use_models(uses@);
    let ghost rs = ledger.rs();
    let mut budget: usize = MAX_TOOL_ARGUMENTS_TOTAL_BYTES;
    let mut out: Vec<ToolExecution> = Vec::new();
    assert(models::tool_models(out@) =~= Seq::empty());
    let mut n: usize = 0;
    while n < uses.len()
        invariant
            n <= uses.len(),
            ledger.wf(),
            us == use_models(uses@),
            rs == ledger.rs(),
            models::tool_models(out@) == executions(us, rs, id, n as nat).0,
            budget == executions(us, rs, id, n as nat).1,
        decreases uses.len() - n,
    {
        let u = &uses[n];
        assert(us[n as int] == (UseModel { id: u.id@, name: u.name@, input: u.input@ }));
        let status = match ledger.result(u.id.as_str()) {
            Some(r) => if r.is_error {
                ToolStatus::Failure
            } else {
                ToolStatus::Success
            },
            None => ToolStatus::Failure,
        };
        let tool_protocol = if starts_with(u.name.as_str(), "mcp__") {
            "mcp".to_owned()
        } else {
            "native".to_owned()
        };
        let arguments = bounded_arguments(u.input, &mut budget);
        let x = ToolExecution {
            id: None,
            interaction_id: id,
            tool_protocol,
            tool_name: u.name.clone(),
            arguments,
            status,
        };
        let ghost held = models::tool_models(out@);
        let ghost xm = x@;
        out.push(x);
        assert(models::tool_models(out@) =~= held.push(xm));
        n += 1;
    }
    out
}

fn contexts_of(uses: &Vec<UseRef>, input: &PlanInput, id: InteractionId) -> (r: Vec<ContextItem>)
    ensures
        models::context_models(r@) == contexts(
            use_models(uses@),
            input.worktree_root@,
            alias_models(input.path_aliases@),
            id,
            uses@.len(),
        ),
{
    let ghost us = use_models(uses@);
    let ghost root = input.worktree_root@;
    let ghost aliases = alias_models(input.path_aliases@);
    let mut out: Vec<ContextItem> = Vec::new();
    assert(models::context_models(out@) =~= Seq::empty());
    let mut n: usize = 0;
    while n < uses.len()
        invariant
            n <= uses.len(),
            us == use_models(uses@),
            root == input.worktree_root@,
            aliases == alias_models(input.path_aliases@),
            models::context_models(out@) == contexts(us, root, aliases, id, n as nat),
        decreases uses.len() - n,
    {
        let u = &uses[n];
        assert(us[n as int] == (UseModel { id: u.id@, name: u.name@, input: u.input@ }));
        let ghost held = models::context_models(out@);
        assert(held.len() == out@.len());
        match context_item_for(
            u.name.as_str(),
            u.input,
            input.worktree_root,
            input.path_aliases,
            &id,
        ) {
            Some(item) => {
                if !place_known(&out, &item) {
                    let ghost xm = item@;
                    out.push(item);
                    assert(models::context_models(out@) =~= held.push(xm));
                }
            },
            None => {},
        }
        n += 1;
    }
    out
}

fn plan_group(ledger: &Ledger, group: &Group, words: Words, input: &PlanInput) -> (r:
    PlannedInteraction)
    requires
        ledger.wf(),
        as_ints(group.positions@) == group_members(ledger.es(), group.key@, ledger.es().len()),
        group.positions@.len() > 0,
        positions_valid(group.positions@, ledger.entries@.len()),
        use_models(words.uses@) == group_uses(
            ledger.es(),
            as_ints(group.positions@),
            group.positions@.len(),
        ),
        words.texts.deep_view() == group_texts(
            ledger.es(),
            as_ints(group.positions@),
            group.positions@.len(),
        ),
        words.thoughts.deep_view() == group_thoughts(
            ledger.es(),
            as_ints(group.positions@),
            group.positions@.len(),
        ),
        models::opt_text(words.model) == group_model(
            ledger.es(),
            as_ints(group.positions@),
            0,
        ),
    ensures
        r@ == planned(ledger.es(), group.key@, *input),
{
    let ghost es = ledger.es();
    let ghost ps = as_ints(group.positions@);
    let first: usize = group.positions[0];
    let n: usize = ledger.entries.len();
    assert(ps[0] == first);
    assert(first < n);
    let entry: &Entry = ledger.entries[first];
    assert(es[first as int] == entry@);
    let (found, parent) = walk_back(ledger, first);
    let (user_prompt, author) = render_stimuli(ledger, &found);
    let id = derived_interaction_id(input.harness, input.session_id, group.key.as_str());
    let parent_id = match parent {
        Some(p) => {
            assert(p < n);
            assert(es[p as int] == ledger.entries@[p as int]@);
            match key_text(ledger.entries[p]) {
                Some(key) => Some(derived_interaction_id(input.harness, input.session_id, key.as_str())),
                None => None,
            }
        },
        None => None,
    };
    proof {
        lemma_walk_parent(es, entry@.parent_uuid, es.len() + 1, Seq::empty());
    }
    let Words { uses, texts, thoughts, model } = words;
    let tool_executions = execute_all(ledger, &uses, id);
    let context_items = contexts_of(&uses, input, id);
    assert(use_models(uses@).len() == uses@.len());
    assert(as_ints(found@).len() == found@.len());
    assert(ps.len() == group.positions@.len());
    let timestamp = match entry.timestamp {
        Some(t) => t,
        None => input.now,
    };
    let r = PlannedInteraction {
        id,
        response_key: group.key.clone(),
        parent_id,
        timestamp,
        author,
        user_prompt,
        model_name: model,
        model_cot: join_bounded(&thoughts, MAX_TEXT_BYTES),
        model_response: join_bounded(&texts, MAX_TEXT_BYTES),
        tool_executions,
        context_items,
        first_offset: entry.offset,
    };
    proof {
        let want = planned(es, group.key@, *input);
        assert(r@.id == want.id);
        assert(r@.parent_id == want.parent_id);
        assert(r@.timestamp == want.timestamp);
        assert(r@.author == want.author);
        assert(r@.user_prompt == want.user_prompt);
        assert(r@.model_name == want.model_name);
        assert(r@.model_cot == want.model_cot);
        assert(r@.model_response == want.model_response);
        assert(r@.tool_executions == want.tool_executions);
        assert(r@.context_items == want.context_items);
        assert(r@ =~= want);
    }
    r
}

proof fn lemma_walk_parent(
    es: Seq<ChainModel>,
    cursor: Option<Seq<char>>,
    fuel: nat,
    found: Seq<int>,
)
    ensures
        walk(es, cursor, fuel, found).1 matches Some(p) ==> response_key(es[p]) is Some,
    decreases fuel,
{
    if fuel > 0 {
        match cursor {
            None => {},
            Some(uuid) => match textset::position_of(entry_ids(es), uuid, 0) {
                None => {},
                Some(p) => match es[p].payload {
                    PayloadModel::Assistant(_) => {},
                    PayloadModel::User(_) => {
                        lemma_walk_parent(
                            es,
                            es[p].parent_uuid,
                            (fuel - 1) as nat,
                            found.push(p),
                        );
                    },
                    PayloadModel::Other(_) => {
                        lemma_walk_parent(es, es[p].parent_uuid, (fuel - 1) as nat, found);
                    },
                },
            },
        }
    }
}

/// Whether the response is complete.
fn group_closed(ledger: &Ledger, group: &Group, uses: &Vec<UseRef>, final_mode: bool) -> (r: bool)
    requires
        ledger.wf(),
        as_ints(group.positions@) == group_members(ledger.es(), group.key@, ledger.es().len()),
        group.positions@.len() > 0,
        positions_valid(group.positions@, ledger.entries@.len()),
        use_models(uses@) == group_uses(
            ledger.es(),
            as_ints(group.positions@),
            group.positions@.len(),
        ),
    ensures
        r == response_closed(ledger.es(), group.key@, final_mode),
{
    let ghost ps = as_ints(group.positions@);
    assert(ps.len() == group.positions@.len());
    assert(ledger.es().len() == ledger.entries@.len());
    let count: usize = group.positions.len();
    let last: usize = group.positions[count - 1];
    assert(ps.last() == last);
    assert(last < ledger.entries@.len());
    let n: usize = ledger.entries.len();
    final_mode || (last + 1 < n && (all_answered(ledger, uses) || has_moved_on(
        &ledger.entries,
        last + 1,
    )))
}

/// Plans captures for one window of parsed lines starting at `window_start`.
pub fn plan(lines: &Vec<ParsedLine>, window_start: u64, input: &PlanInput) -> (r: Plan)
    ensures
        r@ == plan_of_window(transcript::line_models(lines@), window_start, *input),
{
    let ledger = Ledger::of(lines);
    let ghost es = ledger.es();
    let ghost keys = group_keys(es, es.len());
    assert(transcript::line_models(lines@).len() == lines@.len());
    assert(es.len() == ledger.entries@.len());
    let groups = group_entries(&ledger.entries);
    let mut plan = Plan {
        interactions: Vec::new(),
        pending_responses: 0,
        cursor_offset: window_start,
        title: find_title(lines),
        first_human_prompt: find_prompt(&ledger.entries),
    };
    let ghost start = plan@;
    assert(start.interactions =~= Seq::empty());
    let mut g: usize = 0;
    while g < groups.len()
        invariant
            g <= groups.len(),
            ledger.wf(),
            es == ledger.es(),
            es.len() == ledger.entries@.len(),
            keys == group_keys(es, es.len()),
            groups_hold(groups@, es, es.len()),
            plan.pending_responses <= g,
            plan@ == planned_through(es, keys, g as nat, *input, start),
        decreases groups.len() - g,
    {
        let group = &groups[g];
        let ghost ps = as_ints(group.positions@);
        proof {
            assert(group.key@ == keys[g as int]);
            assert(keys.contains(group.key@));
            lemma_members_exist(es, group.key@, es.len());
            lemma_members_valid(es, group.key@, es.len());
            assert(ps.len() == group.positions@.len());
            assert forall|i: int| 0 <= i < group.positions@.len() implies (
            #[trigger] group.positions@[i]) < ledger.entries@.len() by {
                assert(ps[i] == group.positions@[i]);
            }
        }
        let words = words_of(&ledger.entries, &group.positions);
        if group_closed(&ledger, group, &words.uses, input.final_mode) {
            let p = plan_group(&ledger, group, words, input);
            let ghost pm = p@;
            let ghost held = plan@;
            plan.cursor_offset = p.first_offset;
            plan.interactions.push(p);
            assert(planned_models(plan.interactions@) =~= held.interactions.push(pm));
        } else {
            plan.pending_responses = plan.pending_responses + 1;
        }
        g += 1;
    }
    plan
}

proof fn lemma_planned_through(
    es: Seq<ChainModel>,
    keys: Seq<Seq<char>>,
    n: nat,
    input: PlanInput,
    start: PlanOutcome,
)
    requires
        n <= keys.len(),
        start.interactions.len() == 0,
        start.pending_responses == 0,
    ensures
        ({
            let r = planned_through(es, keys, n, input, start);
            &&& r.pending_responses + r.interactions.len() == n
            &&& r.pending_responses >= 0
            &&& input.final_mode ==> r.pending_responses == 0
        }),
    decreases n,
{
    if n > 0 {
        lemma_planned_through(es, keys, (n - 1) as nat, input, start);
    }
}

/// Every response of a window is either captured or pending, and at the end of
/// a session none is pending.
pub proof fn law_every_response_counted(lines: Seq<LineModel>, window_start: u64, input: PlanInput)
    ensures
        ({
            let es = chain(lines, lines.len());
            let r = plan_of_window(lines, window_start, input);
            &&& r.pending_responses + r.interactions.len() == group_keys(es, es.len()).len()
            &&& input.final_mode ==> r.pending_responses == 0
        }),
{
    let es = chain(lines, lines.len());
    let keys = group_keys(es, es.len());
    lemma_planned_through(
        es,
        keys,
        keys.len(),
        input,
        PlanOutcome {
            interactions: Seq::empty(),
            pending_responses: 0,
            cursor_offset: window_start,
            title: last_title(lines, lines.len()),
            first_human_prompt: first_prompt(es, 0),
        },
    );
}

/// A list without some of the elements of another, in the same order.
pub open spec fn is_subsequence(a: Seq<PlannedModel>, b: Seq<PlannedModel>) -> bool
    decreases b.len(),
{
    if a.len() == 0 {
        true
    } else if b.len() == 0 {
        false
    } else {
        ||| is_subsequence(a, b.drop_last())
        ||| a.last() == b.last() && is_subsequence(a.drop_last(), b.drop_last())
    }
}

/// The inputs differ at most in whether the session is at its end.
pub open spec fn same_but_mode(a: PlanInput, b: PlanInput) -> bool {
    &&& a.harness@ == b.harness@
    &&& a.session_id@ == b.session_id@
    &&& a.worktree_root@ == b.worktree_root@
    &&& alias_models(a.path_aliases@) == alias_models(b.path_aliases@)
    &&& a.now == b.now
}

proof fn lemma_final_plan(
    es: Seq<ChainModel>,
    keys: Seq<Seq<char>>,
    n: nat,
    live: PlanInput,
    last: PlanInput,
    start: PlanOutcome,
)
    requires
        n <= keys.len(),
        same_but_mode(live, last),
        last.final_mode,
        start.interactions.len() == 0,
        start.pending_responses == 0,
    ensures
        ({
            let p = planned_through(es, keys, n, live, start);
            let q = planned_through(es, keys, n, last, start);
            &&& is_subsequence(p.interactions, q.interactions)
            &&& q.interactions.len() == p.interactions.len() + p.pending_responses
            &&& q.pending_responses == 0
            &&& p.title == start.title && q.title == start.title
            &&& p.first_human_prompt == start.first_human_prompt
            &&& q.first_human_prompt == start.first_human_prompt
        }),
    decreases n,
{
    if n > 0 {
        lemma_final_plan(es, keys, (n - 1) as nat, live, last, start);
        let p = planned_through(es, keys, n, live, start).interactions;
        let q = planned_through(es, keys, n, last, start).interactions;
        let q0 = planned_through(es, keys, (n - 1) as nat, last, start).interactions;
        let p0 = planned_through(es, keys, (n - 1) as nat, live, start).interactions;
        let key = keys[n - 1];
        assert(planned(es, key, live) == planned(es, key, last));
        assert(q.drop_last() =~= q0);
        if response_closed(es, key, live.final_mode) {
            assert(p.drop_last() =~= p0);
        }
    }
}

/// At the end of a session everything is captured: a plan in final mode holds
/// whatever the plan of the same window holds otherwise, in the same order, and
/// what was pending besides, under the same title and first prompt.
pub proof fn law_final_plan_holds_all(
    lines: Seq<LineModel>,
    window_start: u64,
    live: PlanInput,
    last: PlanInput,
)
    requires
        same_but_mode(live, last),
        last.final_mode,
    ensures
        ({
            let p = plan_of_window(lines, window_start, live);
            let q = plan_of_window(lines, window_start, last);
            &&& is_subsequence(p.interactions, q.interactions)
            &&& q.interactions.len() == p.interactions.len() + p.pending_responses
            &&& q.pending_responses == 0
            &&& q.title == p.title
            &&& q.first_human_prompt == p.first_human_prompt
        }),
{
    let es = chain(lines, lines.len());
    let keys = group_keys(es, es.len());
    lemma_final_plan(
        es,
        keys,
        keys.len(),
        live,
        last,
        PlanOutcome {
            interactions: Seq::empty(),
            pending_responses: 0,
            cursor_offset: window_start,
            title: last_title(lines, lines.len()),
            first_human_prompt: first_prompt(es, 0),
        },
    );
}

proof fn lemma_cursor(
    es: Seq<ChainModel>,
    n: nat,
    input: PlanInput,
    start: PlanOutcome,
)
    requires
        n <= group_keys(es, es.len()).len(),
        forall|i: int| 0 <= i < es.len() ==> start.cursor_offset <= (#[trigger] es[i]).offset,
    ensures
        start.cursor_offset <= planned_through(
            es,
            group_keys(es, es.len()),
            n,
            input,
            start,
        ).cursor_offset,
    decreases n,
{
    let keys = group_keys(es, es.len());
    if n > 0 {
        lemma_cursor(es, (n - 1) as nat, input, start);
        let key = keys[n - 1];
        assert(keys.contains(key));
        lemma_members_exist(es, key, es.len());
        lemma_members_valid(es, key, es.len());
        let ps = group_members(es, key, es.len());
        assert(0 <= ps[0] < es.len());
        assert(start.cursor_offset <= es[ps[0]].offset);
    }
}

pub proof fn lemma_members_keyed(es: Seq<ChainModel>, key: Seq<char>, n: nat)
    requires
        n <= es.len(),
    ensures
        forall|i: int|
            0 <= i < group_members(es, key, n).len() ==> response_key(
                es[#[trigger] group_members(es, key, n)[i]],
            ) == Some(key),
    decreases n,
{
    if n > 0 {
        lemma_members_keyed(es, key, (n - 1) as nat);
        let before = group_members(es, key, (n - 1) as nat);
        let now = group_members(es, key, n);
        assert forall|i: int| 0 <= i < now.len() implies response_key(es[#[trigger] now[i]])
            == Some(key) by {
            if i < before.len() {
                assert(now[i] == before[i]);
            }
        }
    }
}

proof fn lemma_last_member(es: Seq<ChainModel>, key: Seq<char>)
    requires
        group_keys(es, es.len()).contains(key),
    ensures
        ({
            let last = group_members(es, key, es.len()).last();
            0 <= last < es.len() && response_key(es[last]) == Some(key)
        }),
{
    lemma_members_exist(es, key, es.len());
    lemma_members_valid(es, key, es.len());
    lemma_members_keyed(es, key, es.len());
    let ps = group_members(es, key, es.len());
    assert(ps[ps.len() - 1] == ps.last());
}

proof fn lemma_one_open(es: Seq<ChainModel>, a: int, b: int, final_mode: bool)
    requires
        0 <= a < b < group_keys(es, es.len()).len(),
    ensures
        response_closed(es, group_keys(es, es.len())[a], final_mode) || response_closed(
            es,
            group_keys(es, es.len())[b],
            final_mode,
        ),
{
    let keys = group_keys(es, es.len());
    assert(keys.contains(keys[a]) && keys.contains(keys[b]));
    lemma_last_member(es, keys[a]);
    lemma_last_member(es, keys[b]);
    lemma_keys_differ(es, es.len(), a, b);
    let x = group_members(es, keys[a], es.len()).last();
    let y = group_members(es, keys[b], es.len()).last();
    assert(x != y);
    if x < y {
        assert(moves_on(es[y]));
        assert(moved_on(es, x + 1));
    } else {
        assert(moves_on(es[x]));
        assert(moved_on(es, y + 1));
    }
}

proof fn lemma_pending(es: Seq<ChainModel>, n: nat, input: PlanInput, start: PlanOutcome)
    requires
        n <= group_keys(es, es.len()).len(),
        start.pending_responses == 0,
    ensures
        ({
            let keys = group_keys(es, es.len());
            let r = planned_through(es, keys, n, input, start);
            &&& 0 <= r.pending_responses <= 1
            &&& r.pending_responses == 1 ==> exists|i: int|
                0 <= i < n && !response_closed(es, #[trigger] keys[i], input.final_mode)
        }),
    decreases n,
{
    let keys = group_keys(es, es.len());
    if n > 0 {
        lemma_pending(es, (n - 1) as nat, input, start);
        let before = planned_through(es, keys, (n - 1) as nat, input, start);
        if before.pending_responses == 1 {
            let i = choose|i: int|
                0 <= i < n - 1 && !response_closed(es, #[trigger] keys[i], input.final_mode);
            lemma_one_open(es, i, n - 1, input.final_mode);
            assert(!response_closed(es, keys[i], input.final_mode));
        } else if !response_closed(es, keys[n - 1], input.final_mode) {
            assert(!response_closed(es, keys[(n - 1) as int], input.final_mode));
        }
    }
}

/// At most one response of a window is pending: a later response shows that the
/// conversation has moved on from every earlier one.
pub proof fn law_at_most_one_pending(lines: Seq<LineModel>, window_start: u64, input: PlanInput)
    ensures
        0 <= plan_of_window(lines, window_start, input).pending_responses <= 1,
{
    let es = chain(lines, lines.len());
    lemma_pending(
        es,
        group_keys(es, es.len()).len(),
        input,
        PlanOutcome {
            interactions: Seq::empty(),
            pending_responses: 0,
            cursor_offset: window_start,
            title: last_title(lines, lines.len()),
            first_human_prompt: first_prompt(es, 0),
        },
    );
}

/// The cursor never moves back: where all entries of a window begin at or
/// behind its start, so does the next read.
pub proof fn law_cursor_never_moves_back(lines: Seq<LineModel>, window_start: u64, input: PlanInput)
    requires
        forall|i: int|
            0 <= i < chain(lines, lines.len()).len() ==> window_start <= (#[trigger] chain(
                lines,
                lines.len(),
            )[i]).offset,
    ensures
        window_start <= plan_of_window(lines, window_start, input).cursor_offset,
{
    let es = chain(lines, lines.len());
    let keys = group_keys(es, es.len());
    lemma_cursor(
        es,
        keys.len(),
        input,
        PlanOutcome {
            interactions: Seq::empty(),
            pending_responses: 0,
            cursor_offset: window_start,
            title: last_title(lines, lines.len()),
            first_human_prompt: first_prompt(es, 0),
        },
    );
}

proof fn lemma_planned_ids(
    es: Seq<ChainModel>,
    keys: Seq<Seq<char>>,
    n: nat,
    input: PlanInput,
    start: PlanOutcome,
    k: int,
)
    requires
        n <= keys.len(),
        start.interactions.len() == 0,
        0 <= k < planned_through(es, keys, n, input, start).interactions.len(),
    ensures
        ({
            let p = planned_through(es, keys, n, input, start).interactions[k];
            &&& p.id == response_id(input.harness@, input.session_id@, p.response_key)
            &&& keys.contains(p.response_key)
        }),
    decreases n,
{
    if n > 0 {
        let before = planned_through(es, keys, (n - 1) as nat, input, start);
        if k < before.interactions.len() {
            lemma_planned_ids(es, keys, (n - 1) as nat, input, start, k);
        } else {
            assert(keys.contains(keys[n - 1]));
        }
    }
}

/// Reading a transcript again is idempotent: the identity of a captured
/// response depends on the session and the response alone, not on the window
/// it was read in.
pub proof fn law_identity_is_stable(
    lines1: Seq<LineModel>,
    start1: u64,
    input1: PlanInput,
    lines2: Seq<LineModel>,
    start2: u64,
    input2: PlanInput,
    i: int,
    j: int,
)
    requires
        input1.harness@ == input2.harness@,
        input1.session_id@ == input2.session_id@,
        0 <= i < plan_of_window(lines1, start1, input1).interactions.len(),
        0 <= j < plan_of_window(lines2, start2, input2).interactions.len(),
        plan_of_window(lines1, start1, input1).interactions[i].response_key == plan_of_window(
            lines2,
            start2,
            input2,
        ).interactions[j].response_key,
    ensures
        plan_of_window(lines1, start1, input1).interactions[i].id == plan_of_window(
            lines2,
            start2,
            input2,
        ).interactions[j].id,
{
    let es1 = chain(lines1, lines1.len());
    let keys1 = group_keys(es1, es1.len());
    lemma_planned_ids(
        es1,
        keys1,
        keys1.len(),
        input1,
        PlanOutcome {
            interactions: Seq::empty(),
            pending_responses: 0,
            cursor_offset: start1,
            title: last_title(lines1, lines1.len()),
            first_human_prompt: first_prompt(es1, 0),
        },
        i,
    );
    let es2 = chain(lines2, lines2.len());
    let keys2 = group_keys(es2, es2.len());
    lemma_planned_ids(
        es2,
        keys2,
        keys2.len(),
        input2,
        PlanOutcome {
            interactions: Seq::empty(),
            pending_responses: 0,
            cursor_offset: start2,
            title: last_title(lines2, lines2.len()),
            first_human_prompt: first_prompt(es2, 0),
        },
        j,
    );
}

} // verus!
