//! How moments, paths and texts are measured.

use crate::bounded;
use crate::git;
use crate::linker;
use crate::linker::LinkPolicy;
use crate::models::{ContextModel, Timestamp};
use crate::planning;
use crate::text;
use crate::vscode;
use crate::vscode::ResponsePartRaw;
use vstd::prelude::*;
use vstd::utf8::*;

verus! {

/// The moment behind which interactions are eligible is the later of the start of the
/// window and the commit's parent. There is none exactly where the window has no
/// calendar date or the parent lies more than five minutes ahead.
pub proof fn law_eligible_since_window_and_parent(
    now: Timestamp,
    policy: LinkPolicy,
    parent: Option<i64>,
)
    ensures
        ({
            let out = linker::lower_bound(now, policy, parent);
            let start = now.seconds - policy.window;
            let kept = linker::dated(start) && linker::dated(now.seconds + 300);
            let known = parent is Some && linker::dated(parent->0 as int);
            let ahead = known && (parent->0 > now.seconds + 300);
            &&& out is None <==> !kept || ahead
            &&& out matches Some(t) ==> {
                &&& t.seconds > start || (t.seconds == start && t.nanos >= now.nanos)
                &&& known ==> t.seconds >= parent->0
                &&& (t.seconds == start && t.nanos == now.nanos) || (known && t.seconds
                    == parent->0 && t.nanos == 0)
            }
        }),
{
}

/// A path of the repository is refused exactly where it is empty, holds a zero, starts
/// at a root or a drive, names nothing or goes up; otherwise it is its components,
/// whichever slash they were written with.
pub proof fn law_repository_path_is_its_components(path: Seq<char>)
    ensures
        ({
            let out = linker::repository_path(path);
            let s = path.map_values(
                |c: char|
                    if c == '\\' {
                        '/'
                    } else {
                        c
                    },
            );
            let parts = text::pieces(s, '/').filter(|p: Seq<char>| p.len() > 0 && p != "."@);
            let rooted = path.len() > 0 && (path[0] == '/' || path[0] == '\\') || path.len() > 1
                && (('a' <= path[0] <= 'z') || ('A' <= path[0] <= 'Z')) && path[1] == ':';
            &&& out is None <==> path.len() == 0 || path.contains('\0') || rooted || parts.len()
                == 0 || parts.contains(".."@)
            &&& out matches Some(p) ==> p == text::joined(parts, "/"@)
        }),
{
    let s = path.map_values(
        |c: char|
            if c == '\\' {
                '/'
            } else {
                c
            },
    );
    assert(s =~= linker::forward(path));
    assert((|p: Seq<char>| p.len() > 0 && p != "."@) =~= (|p: Seq<char>|
        planning::names_something(p)));
    assert(s.len() == path.len());
    if path.len() > 0 {
        assert(s[0] == '/' <==> path[0] == '/' || path[0] == '\\');
        assert(linker::is_letter(s[0]) <==> ('a' <= path[0] <= 'z') || ('A' <= path[0] <= 'Z'));
    }
    if path.len() > 1 {
        assert(s[1] == ':' <==> path[1] == ':');
    }
}

/// A file below the worktree goes by the components that follow those of the worktree;
/// the worktree itself, a relative path and one that goes up are none. A file beside
/// the worktree is found where the first alias that fits leads into the worktree.
pub proof fn law_worktree_path_is_what_follows_the_root(
    path: Seq<char>,
    root: Seq<char>,
    aliases: Seq<(Seq<char>, Seq<char>)>,
    rest: Seq<Seq<char>>,
)
    requires
        root.len() > 0,
        root[0] == '/',
    ensures
        ({
            let out = planning::relative_path(path, root, aliases);
            let p = planning::components(path);
            let r = planning::components(root);
            let absolute = path.len() > 0 && path[0] == '/';
            &&& !absolute ==> out is None
            &&& absolute && p == r + rest ==> (out is Some <==> rest.len() > 0 && !rest.contains(
                ".."@,
            ))
            &&& absolute && p == r + rest && out is Some ==> out->0 == text::joined(rest, "/"@)
            &&& absolute && aliases.len() == 0 && !(r.len() <= p.len() && p.take(r.len() as int)
                == r) ==> out is None
            &&& forall|k: int|
                absolute && !(r.len() <= p.len() && p.take(r.len() as int) == r) && 0 <= k
                    < aliases.len() && (#[trigger] aliases[k]).0.len() > 0 && aliases[k].0[0] == '/'
                    && aliases[k].1.len() > 0 && aliases[k].1[0] == '/' && p
                    == planning::components(aliases[k].0) + rest && planning::components(
                    aliases[k].1,
                ) == r && (forall|q: int|
                    0 <= q < k ==> (#[trigger] aliases[q]).0.len() > 0 && !(
                    planning::is_absolute(aliases[q].0) && planning::lies_under(
                        p,
                        planning::components(aliases[q].0),
                    ))) && rest.len() > 0 && !rest.contains(".."@) ==> out == Some(
                    text::joined(rest, "/"@),
                )
        }),
{
    let p = planning::components(path);
    let r = planning::components(root);
    assert(planning::steps(root) == r);
    if p == r + rest {
        assert(p.take(r.len() as int) =~= r);
        assert(p.skip(r.len() as int) =~= rest);
    }
    assert forall|k: int|
        planning::is_absolute(path) && !(r.len() <= p.len() && p.take(r.len() as int) == r) && 0
            <= k < aliases.len() && (#[trigger] aliases[k]).0.len() > 0 && aliases[k].0[0] == '/'
            && aliases[k].1.len() > 0 && aliases[k].1[0] == '/' && p == planning::components(
            aliases[k].0,
        ) + rest && planning::components(aliases[k].1) == r && (forall|q: int|
            0 <= q < k ==> (#[trigger] aliases[q]).0.len() > 0 && !(planning::is_absolute(
                aliases[q].0,
            ) && planning::lies_under(p, planning::components(aliases[q].0)))) && rest.len() > 0
            && !rest.contains(".."@) implies planning::relative_path(path, root, aliases) == Some(
        text::joined(rest, "/"@),
    ) by {
        let spelled = planning::components(aliases[k].0);
        assert(p.take(spelled.len() as int) =~= spelled);
        assert(p.skip(spelled.len() as int) =~= rest);
        lemma_alias_at(p, aliases, 0, k);
        let q = r + rest;
        assert(planning::steps(aliases[k].1) == r);
        assert(planning::through_alias(p, aliases, 0) == Some((true, q)));
        assert(q.take(r.len() as int) =~= r);
        assert(q.skip(r.len() as int) =~= rest);
    }
}

proof fn lemma_alias_at(
    p: Seq<Seq<char>>,
    aliases: Seq<(Seq<char>, Seq<char>)>,
    j: int,
    k: int,
)
    requires
        0 <= j <= k < aliases.len(),
        forall|q: int|
            0 <= q < k ==> (#[trigger] aliases[q]).0.len() > 0 && !(planning::is_absolute(
                aliases[q].0,
            ) && planning::lies_under(p, planning::components(aliases[q].0))),
    ensures
        planning::through_alias(p, aliases, j) == planning::through_alias(p, aliases, k),
    decreases k - j,
{
    if j < k {
        assert(aliases[j].0.len() > 0);
        lemma_alias_at(p, aliases, j + 1, k);
    }
}

proof fn lemma_context_bytes(items: Seq<ContextModel>, k: nat)
    requires
        k <= items.len(),
    ensures
        git::context_encoded(items, k) == items.take(k as int).map_values(
            |x: ContextModel|
                encode_utf8(x.file_path) + (match x.git_blob_sha {
                    Some(s) => encode_utf8(s),
                    None => Seq::empty(),
                }) + (match x.dirty_patch {
                    Some(s) => encode_utf8(s),
                    None => Seq::empty(),
                }),
        ).flatten(),
    decreases k,
{
    broadcast use Seq::lemma_flatten_push;

    let f = |x: ContextModel|
        encode_utf8(x.file_path) + (match x.git_blob_sha {
            Some(s) => encode_utf8(s),
            None => Seq::empty(),
        }) + (match x.dirty_patch {
            Some(s) => encode_utf8(s),
            None => Seq::empty(),
        });
    let now = items.take(k as int);
    if k > 0 {
        lemma_context_bytes(items, (k - 1) as nat);
        let was = items.take(k - 1);
        assert(now.map_values(f) =~= was.map_values(f).push(f(items[k - 1])));
    } else {
        assert(now.map_values(f).flatten() =~= Seq::empty());
    }
}

/// The hash of a context covers path, object and patch of every item, in their order.
pub proof fn law_context_hash_covers_every_item(items: Seq<ContextModel>)
    ensures
        git::context_encoded(items, items.len()) == items.map_values(
            |x: ContextModel|
                encode_utf8(x.file_path) + (match x.git_blob_sha {
                    Some(s) => encode_utf8(s),
                    None => Seq::empty(),
                }) + (match x.dirty_patch {
                    Some(s) => encode_utf8(s),
                    None => Seq::empty(),
                }),
        ).flatten(),
{
    lemma_context_bytes(items, items.len());
    assert(items.take(items.len() as int) =~= items);
}

/// What one more part adds to a response: nothing where its kind is silent, the
/// message of a tool call on a line of its own, and else its text.
pub proof fn law_part_adds_what_it_shows(parts: Seq<ResponsePartRaw>, k: nat)
    requires
        k < parts.len(),
    ensures
        ({
            let before = vscode::parts_text(parts, k);
            let after = vscode::parts_text(parts, k + 1);
            let part = parts[k as int];
            let kind = match part.kind {
                Some(word) => word@,
                None => "text"@,
            };
            let silent = kind == "thinking"@ || kind == "textEditGroup"@ || kind == "undoStop"@
                || kind == "prepareToolInvocation"@ || kind == "mcpServersStarting"@;
            &&& silent ==> after == before
            &&& !silent && kind != "toolInvocationSerialized"@ ==> after == before + match part.value {
                Some(value) => value@,
                None => Seq::empty(),
            }
            &&& kind == "toolInvocationSerialized"@ && part.past_tense_message is None
                && part.invocation_message is None ==> after == before
            &&& kind == "toolInvocationSerialized"@ && part.past_tense_message is Some
                ==> after.last() == '\n' && before.is_prefix_of(after) && (before.len() == 0
                || before.last() == '\n') ==> after == before + (
            part.past_tense_message->0).text() + "\n"@
            &&& kind == "toolInvocationSerialized"@ && part.past_tense_message is Some
                && before.len() > 0 && before.last() != '\n' ==> after == before + "\n"@ + (
            part.past_tense_message->0).text() + "\n"@
            &&& kind == "toolInvocationSerialized"@ && part.past_tense_message is None
                && part.invocation_message is Some && (before.len() == 0 || before.last() == '\n')
                ==> after == before + (part.invocation_message->0).text() + "\n"@
        }),
        vscode::parts_text(parts, 0).len() == 0,
{
    reveal_strlit("thinking");
    reveal_strlit("textEditGroup");
    reveal_strlit("undoStop");
    reveal_strlit("prepareToolInvocation");
    reveal_strlit("mcpServersStarting");
    reveal_strlit("toolInvocationSerialized");
    assert("toolInvocationSerialized"@.len() == 24 && "thinking"@.len() == 8);
    assert("textEditGroup"@.len() == 13 && "undoStop"@.len() == 8);
    assert("prepareToolInvocation"@.len() == 21 && "mcpServersStarting"@.len() == 18);
    let before = vscode::parts_text(parts, k);
    assert(before + Seq::<char>::empty() =~= before);
}

/// Joined texts hold every part in its order, with the separator between each two.
pub proof fn law_joining_separates_the_parts(parts: Seq<Seq<char>>, x: Seq<char>, sep: Seq<char>)
    ensures
        text::joined(Seq::<Seq<char>>::empty(), sep).len() == 0,
        text::joined(seq![x], sep) == x,
        parts.len() > 0 ==> text::joined(parts.push(x), sep) == text::joined(parts, sep) + sep + x,
{
    assert(parts.push(x).drop_last() =~= parts);
}

/// A text that fits into its bounds is left as it is; one that does not keeps a
/// beginning and an end of it.
pub proof fn law_ends_are_kept(t: Seq<char>, head: int, tail: int)
    requires
        0 <= head,
        0 <= tail,
    ensures
        encode_utf8(t).len() <= head + tail ==> bounded::bounded_ends(t, head, tail) == t,
        encode_utf8(t).len() > head + tail ==> bounded::head_of(t, head).is_prefix_of(t)
            && bounded::head_of(t, head).is_prefix_of(bounded::bounded_ends(t, head, tail))
            && encode_utf8(bounded::head_of(t, head)).len() <= head,
        encode_utf8(t).len() > head ==> bounded::head_of(t, head).is_prefix_of(
            bounded::bounded(t, head),
        ),
{
    bounded::law_head_fits(t, head);
    let h = bounded::head_of(t, head);
    let out = bounded::bounded_ends(t, head, tail);
    if encode_utf8(t).len() > head + tail {
        assert(out.subrange(0, h.len() as int) =~= h);
    }
    if encode_utf8(t).len() > head {
        assert(bounded::bounded(t, head).subrange(0, h.len() as int) =~= h);
    }
}

} // verus!
