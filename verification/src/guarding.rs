//! What the guards before the store and before publication leave alone: a record in
//! which there is nothing to remove passes as it is.

use crate::batch;
use crate::capture;
use crate::capture::CaptureModel;
use crate::json;
use crate::json::JsonModel;
use crate::models::{ContextModel, LinkModel, ToolModel};
use crate::order;
use crate::privacy;
use crate::privacy::{PolicyModel, PrivacyError};
use crate::text;
use crate::tree::NodeModel;
use vstd::prelude::*;
use vstd::string::*;
use vstd::utf8::*;

verus! {

/// A text in which neither a secret is found nor anything that a policy names.
pub open spec fn is_plain(p: PolicyModel, t: Seq<char>) -> bool {
    &&& privacy::is_clean(t)
    &&& forall|i: int|
        0 <= i < p.literals.len() ==> text::first_at(t, #[trigger] p.literals[i], 0) is None
    &&& forall|i: int|
        0 <= i < p.regexes.len() ==> privacy::valid_pattern(#[trigger] p.regexes[i])
            && privacy::matched_spans(p.regexes[i], t).len() == 0
}

/// Such a text, if there is one.
pub open spec fn is_plain_opt(p: PolicyModel, t: Option<Seq<char>>) -> bool {
    t matches Some(s) ==> is_plain(p, s)
}

/// A document with ascending names, none of them that of a credential, in which all
/// texts and names are such texts.
pub open spec fn is_plain_document(p: PolicyModel, doc: JsonModel) -> bool
    decreases doc,
{
    match doc {
        JsonModel::Text(t) => is_plain(p, t),
        JsonModel::List(xs) => forall|i: int|
            0 <= i < xs.len() ==> is_plain_document(p, #[trigger] xs[i]),
        JsonModel::Object(xs) => {
            &&& forall|i: int|
                0 <= i < xs.len() ==> is_plain(p, (#[trigger] xs[i]).0)
                    && !privacy::credential_name(privacy::normalized_name(xs[i].0))
                    && is_plain_document(p, xs[i].1)
            &&& forall|i: int, j: int|
                0 <= i < j < xs.len() ==> order::text_lt((#[trigger] xs[i]).0, (#[trigger] xs[j]).0)
        },
        _ => true,
    }
}

/// Arguments of a tool with nothing to remove: such a text that is no document, or
/// the compact text of such a document.
pub open spec fn are_plain_arguments(p: PolicyModel, t: Seq<char>) -> bool {
    &&& text::byte_len(t) <= privacy::MAX_TEXT
    &&& match json::parsed_json(t) {
        None => is_plain(p, t),
        Some(doc) => is_plain_document(p, doc) && json::printed_json(doc) == t,
    }
}

/// Where there is nothing to remove, a policy leaves a text as it is.
pub proof fn law_plain_text_is_left(
    p: PolicyModel,
    t: Seq<char>,
    r: Result<Seq<char>, PrivacyError>,
)
    requires
        is_plain(p, t),
        privacy::may_clean(p, t, r),
    ensures
        r == Ok::<Seq<char>, PrivacyError>(t),
{
    let (choice, ids, rc) = choose|
        choice: Seq<Seq<Seq<u128>>>,
        ids: Seq<u128>,
        rc: Seq<Seq<u128>>,
    | #[trigger]
        privacy::policy_outcome(p, t, choice, ids, rc) == r;
    let first = privacy::scrub_outcome(t, choice);
    assert(privacy::may_scrub(t, first));
    privacy::law_clean_text_unchanged(t, first);
    lemma_literals_left(p, t, ids, 0);
    lemma_patterns_left(p, t, rc, p.regexes.len());
}

proof fn lemma_literals_left(p: PolicyModel, t: Seq<char>, ids: Seq<u128>, li: int)
    requires
        0 <= li <= p.literals.len(),
        is_plain(p, t),
    ensures
        privacy::literals_removed(t, p.literals, li, ids, 0) == Ok::<
            (Seq<char>, nat),
            PrivacyError,
        >((t, 0)),
    decreases p.literals.len() - li,
{
    if li < p.literals.len() {
        assert(text::first_at(t, p.literals[li], 0) is None);
        lemma_literals_left(p, t, ids, li + 1);
    }
}

proof fn lemma_patterns_left(p: PolicyModel, t: Seq<char>, rc: Seq<Seq<u128>>, k: nat)
    requires
        k <= p.regexes.len(),
        is_plain(p, t),
    ensures
        privacy::patterns_removed(t, 0, p.regexes, rc, k) == Ok::<(Seq<char>, nat), PrivacyError>(
            (t, 0),
        ),
    decreases k,
{
    if k > 0 {
        lemma_patterns_left(p, t, rc, (k - 1) as nat);
        let spans = privacy::matched_spans(p.regexes[k - 1], t);
        assert(privacy::valid_pattern(p.regexes[k - 1]));
        assert(spans =~= Seq::empty());
        privacy::lemma_nothing_redacted(
            t,
            privacy::marker_texts("policy_regex"@, rc[k - 1], spans.len()),
        );
    }
}

/// Setting members in the order of their names gives them in that order.
proof fn lemma_object_of(xs: Seq<(Seq<char>, JsonModel)>, k: nat)
    requires
        k <= xs.len(),
        forall|i: int, j: int|
            0 <= i < j < xs.len() ==> order::text_lt((#[trigger] xs[i]).0, (#[trigger] xs[j]).0),
    ensures
        privacy::object_of(xs, k) == xs.take(k as int),
    decreases k,
{
    if k > 0 {
        lemma_object_of(xs, (k - 1) as nat);
        let before = xs.take(k - 1);
        let name = xs[k - 1].0;
        json::lemma_find_member(before, name, 0);
        if json::find_member(before, name, 0) is Some {
            let q = json::find_member(before, name, 0)->0;
            assert(order::text_lt(xs[q].0, xs[k - 1].0));
            order::lemma_bytes_lt_irreflexive(encode_utf8(name));
        }
        assert forall|i: int| 0 <= i < before.len() implies order::text_lt(
            (#[trigger] before[i]).0,
            name,
        ) by {
            assert(order::text_lt(xs[i].0, xs[k - 1].0));
        }
        lemma_slot_is_end(before, name, 0);
        assert(before.insert(before.len() as int, xs[k - 1]) =~= xs.take(k as int));
    } else {
        assert(xs.take(0) =~= Seq::empty());
    }
}

proof fn lemma_slot_is_end(s: Seq<(Seq<char>, JsonModel)>, name: Seq<char>, k: int)
    requires
        0 <= k <= s.len(),
        forall|i: int| 0 <= i < s.len() ==> order::text_lt((#[trigger] s[i]).0, name),
    ensures
        json::slot(s, name, k) == s.len(),
    decreases s.len() - k,
{
    if k < s.len() {
        assert(order::text_lt(s[k].0, name));
        lemma_slot_is_end(s, name, k + 1);
    }
}

/// Where there is nothing to remove, a policy leaves a document as it is.
pub proof fn law_plain_document_is_left(p: PolicyModel, doc: JsonModel, b: JsonModel)
    requires
        is_plain_document(p, doc),
        privacy::may_clean_json(p, doc, b),
    ensures
        b == doc,
    decreases doc,
{
    match doc {
        JsonModel::Text(t) => {
            law_plain_text_is_left(p, t, Ok(b->Text_0));
        },
        JsonModel::List(xs) => {
            reveal_with_fuel(privacy::may_clean_json, 2);
            assert forall|i: int| 0 <= i < xs.len() implies xs[i] == b->List_0[i] by {
                assert(privacy::may_clean_json(p, xs[i], b->List_0[i]));
                assert(is_plain_document(p, xs[i]));
                law_plain_document_is_left(p, xs[i], b->List_0[i]);
            }
            assert(xs =~= b->List_0);
        },
        JsonModel::Object(xs) => {
            let pairs = choose|pairs: Seq<(Seq<char>, JsonModel)>|
                {
                    &&& pairs.len() == xs.len()
                    &&& b->Object_0 == #[trigger] privacy::object_of(pairs, pairs.len())
                    &&& forall|i: int|
                        0 <= i < xs.len() ==> {
                            &&& privacy::may_clean(p, xs[i].0, Ok((#[trigger] pairs[i]).0))
                            &&& if privacy::credential_name(privacy::normalized_name(xs[i].0)) {
                                privacy::may_redact_all(xs[i].1, pairs[i].1)
                            } else {
                                privacy::may_clean_json(p, xs[i].1, pairs[i].1)
                            }
                        }
                };
            reveal_with_fuel(privacy::may_clean_json, 2);
            assert forall|i: int| 0 <= i < xs.len() implies xs[i] == pairs[i] by {
                assert(privacy::may_clean(p, xs[i].0, Ok(pairs[i].0)));
                assert(is_plain(p, xs[i].0));
                law_plain_text_is_left(p, xs[i].0, Ok(pairs[i].0));
                law_plain_document_is_left(p, xs[i].1, pairs[i].1);
            }
            assert(xs =~= pairs);
            lemma_object_of(xs, xs.len());
            assert(xs.take(xs.len() as int) =~= xs);
        },
        _ => {},
    }
}

proof fn lemma_plain_document_passes(p: PolicyModel, doc: JsonModel, e: PrivacyError)
    requires
        is_plain_document(p, doc),
    ensures
        !privacy::may_fail_in(p, doc, e),
    decreases doc, 0nat,
{
    match doc {
        JsonModel::Text(t) => {
            if privacy::may_clean(p, t, Err(e)) {
                law_plain_text_is_left(p, t, Err(e));
            }
        },
        JsonModel::List(xs) => {
            lemma_plain_list_passes(p, xs, xs.len(), e);
        },
        JsonModel::Object(xs) => {
            lemma_plain_object_passes(p, xs, xs.len(), e);
        },
        _ => {},
    }
}

proof fn lemma_plain_list_passes(p: PolicyModel, xs: Seq<JsonModel>, n: nat, e: PrivacyError)
    requires
        n <= xs.len(),
        forall|i: int| 0 <= i < xs.len() ==> is_plain_document(p, #[trigger] xs[i]),
    ensures
        !privacy::may_fail_in_list(p, xs, n, e),
    decreases xs, n,
{
    if n > 0 {
        assert(is_plain_document(p, xs[n - 1]));
        lemma_plain_document_passes(p, xs[n - 1], e);
        lemma_plain_list_passes(p, xs, (n - 1) as nat, e);
    }
}

proof fn lemma_plain_object_passes(
    p: PolicyModel,
    xs: Seq<(Seq<char>, JsonModel)>,
    n: nat,
    e: PrivacyError,
)
    requires
        n <= xs.len(),
        forall|i: int|
            0 <= i < xs.len() ==> is_plain(p, (#[trigger] xs[i]).0) && is_plain_document(
                p,
                xs[i].1,
            ),
    ensures
        !privacy::may_fail_in_object(p, xs, n, e),
    decreases xs, n,
{
    if n > 0 {
        assert(is_plain(p, xs[n - 1].0));
        if privacy::may_clean(p, xs[n - 1].0, Err(e)) {
            law_plain_text_is_left(p, xs[n - 1].0, Err(e));
        }
        lemma_plain_document_passes(p, xs[n - 1].1, e);
        lemma_plain_object_passes(p, xs, (n - 1) as nat, e);
    }
}

proof fn lemma_arguments(p: PolicyModel, t: Seq<char>, r: Result<Seq<char>, PrivacyError>)
    requires
        are_plain_arguments(p, t),
        privacy::may_clean_text(p, t, r),
    ensures
        r == Ok::<Seq<char>, PrivacyError>(t),
{
    match json::parsed_json(t) {
        None => {
            law_plain_text_is_left(p, t, r);
        },
        Some(doc) => match r {
            Ok(s) => {
                let b = choose|b: JsonModel|
                    privacy::may_clean_json(p, doc, b) && s == #[trigger] json::printed_json(b);
                law_plain_document_is_left(p, doc, b);
            },
            Err(e) => {
                lemma_plain_document_passes(p, doc, e);
            },
        },
    }
}

proof fn lemma_opt(p: PolicyModel, a: Option<Seq<char>>, b: Option<Seq<char>>)
    requires
        is_plain_opt(p, a),
        privacy::may_clean_opt(p, a, b),
    ensures
        b == a,
{
    if let Some(s) = a {
        law_plain_text_is_left(p, s, Ok(b->0));
    }
}

proof fn lemma_tools(p: PolicyModel, xs: Seq<ToolModel>, ys: Seq<ToolModel>)
    requires
        capture::may_keep_tools(p, xs, ys),
        forall|i: int|
            0 <= i < xs.len() ==> is_plain(p, (#[trigger] xs[i]).tool_protocol) && is_plain(
                p,
                xs[i].tool_name,
            ) && are_plain_arguments(p, xs[i].arguments),
    ensures
        ys == xs,
{
    assert forall|i: int| 0 <= i < xs.len() implies xs[i] == ys[i] by {
        assert(capture::may_keep_tool(p, xs[i], ys[i]));
        assert(is_plain(p, xs[i].tool_protocol));
        law_plain_text_is_left(p, xs[i].tool_protocol, Ok(ys[i].tool_protocol));
        law_plain_text_is_left(p, xs[i].tool_name, Ok(ys[i].tool_name));
        lemma_arguments(p, xs[i].arguments, Ok(ys[i].arguments));
    }
    assert(xs =~= ys);
}

/// A node with nothing to remove.
pub open spec fn is_plain_node(a: NodeModel) -> bool {
    let p = PolicyModel { paths: Seq::empty(), literals: Seq::empty(), regexes: Seq::empty() };
    &&& is_plain(p, a.interaction.conversation_id)
    &&& is_plain_opt(p, a.interaction.source_request_id)
    &&& is_plain(p, a.interaction.user_prompt)
    &&& is_plain_opt(p, a.interaction.model_name)
    &&& is_plain_opt(p, a.interaction.model_cot)
    &&& is_plain_opt(p, a.interaction.model_response)
    &&& forall|i: int|
        0 <= i < a.context_items.len() ==> is_plain(p, (#[trigger] a.context_items[i]).file_path)
            && is_plain_opt(p, a.context_items[i].dirty_patch)
    &&& forall|i: int|
        0 <= i < a.tool_executions.len() ==> is_plain(
            p,
            (#[trigger] a.tool_executions[i]).tool_protocol,
        ) && is_plain(p, a.tool_executions[i].tool_name) && are_plain_arguments(
            p,
            a.tool_executions[i].arguments,
        )
}

/// A node in which there is nothing to remove is published as it is, in every field.
pub proof fn law_plain_node_is_published_as_it_is(a: NodeModel, b: NodeModel)
    requires
        capture::may_guard(a, b),
        is_plain_node(a),
    ensures
        b == a,
{
    let p = privacy::no_policy();
    let x = a.interaction;
    let y = b.interaction;
    law_plain_text_is_left(p, x.conversation_id, Ok(y.conversation_id));
    law_plain_text_is_left(p, x.user_prompt, Ok(y.user_prompt));
    lemma_opt(p, x.source_request_id, y.source_request_id);
    lemma_opt(p, x.model_name, y.model_name);
    lemma_opt(p, x.model_cot, y.model_cot);
    lemma_opt(p, x.model_response, y.model_response);
    lemma_tools(p, a.tool_executions, b.tool_executions);
    let cs = a.context_items;
    let ds = b.context_items;
    assert forall|i: int| 0 <= i < cs.len() implies cs[i] == ds[i] by {
        assert(capture::may_guard_context(cs[i], ds[i]));
        assert(is_plain(p, cs[i].file_path));
        law_plain_text_is_left(p, cs[i].file_path, Ok(ds[i].file_path));
        lemma_opt(p, cs[i].dirty_patch, ds[i].dirty_patch);
    }
    assert(cs =~= ds);
    assert(x == y);
}

/// A node in which there is nothing to remove is never refused.
pub proof fn law_plain_node_is_not_refused(a: NodeModel, e: PrivacyError)
    requires
        is_plain_node(a),
    ensures
        !capture::guard_may_fail(a, e),
{
    let p = privacy::no_policy();
    assert forall|t: Seq<char>| is_plain(p, t) implies !(#[trigger] privacy::may_clean(
        p,
        t,
        Err(e),
    )) by {
        if privacy::may_clean(p, t, Err(e)) {
            law_plain_text_is_left(p, t, Err(e));
        }
    }
    assert forall|i: int| 0 <= i < a.tool_executions.len() implies !capture::tool_may_fail(
        p,
        #[trigger] a.tool_executions[i],
        e,
    ) by {
        let x = a.tool_executions[i];
        assert(is_plain(p, x.tool_protocol));
        if privacy::may_clean_text(p, x.arguments, Err(e)) {
            lemma_arguments(p, x.arguments, Err(e));
        }
    }
}

/// The guard before publication takes no record away and adds none, whatever is
/// removed from the texts. Identities, moments, authors, links, lines and object names
/// stay; each text that may be absent is there exactly where it was; and context items
/// and tool executions stay in their places.
pub proof fn law_guard_keeps_the_shape(a: NodeModel, b: NodeModel)
    requires
        capture::may_guard(a, b),
    ensures
        b.interaction.id == a.interaction.id,
        b.interaction.parent_id == a.interaction.parent_id,
        b.interaction.timestamp == a.interaction.timestamp,
        b.interaction.author == a.interaction.author,
        b.interaction.source_request_id is Some <==> a.interaction.source_request_id is Some,
        b.interaction.model_name is Some <==> a.interaction.model_name is Some,
        b.interaction.model_cot is Some <==> a.interaction.model_cot is Some,
        b.interaction.model_response is Some <==> a.interaction.model_response is Some,
        b.artifact_links == a.artifact_links,
        b.context_items.len() == a.context_items.len(),
        forall|i: int|
            0 <= i < a.context_items.len() ==> {
                let x = #[trigger] a.context_items[i];
                let y = b.context_items[i];
                &&& y.id == x.id
                &&& y.interaction_id == x.interaction_id
                &&& y.git_blob_sha == x.git_blob_sha
                &&& y.start_line == x.start_line
                &&& y.end_line == x.end_line
                &&& y.dirty_patch is Some <==> x.dirty_patch is Some
            },
        b.tool_executions.len() == a.tool_executions.len(),
        forall|i: int|
            0 <= i < a.tool_executions.len() ==> {
                let x = #[trigger] a.tool_executions[i];
                let y = b.tool_executions[i];
                &&& y.id == x.id
                &&& y.interaction_id == x.interaction_id
                &&& y.status == x.status
            },
{
    assert forall|i: int| 0 <= i < a.context_items.len() implies {
        let x = #[trigger] a.context_items[i];
        let y = b.context_items[i];
        &&& y.id == x.id
        &&& y.interaction_id == x.interaction_id
        &&& y.git_blob_sha == x.git_blob_sha
        &&& y.start_line == x.start_line
        &&& y.end_line == x.end_line
        &&& y.dirty_patch is Some <==> x.dirty_patch is Some
    } by {
        assert(capture::may_guard_context(a.context_items[i], b.context_items[i]));
    }
    assert forall|i: int| 0 <= i < a.tool_executions.len() implies {
        let x = #[trigger] a.tool_executions[i];
        let y = b.tool_executions[i];
        &&& y.id == x.id
        &&& y.interaction_id == x.interaction_id
        &&& y.status == x.status
    } by {
        assert(capture::may_keep_tool(
            privacy::no_policy(),
            a.tool_executions[i],
            b.tool_executions[i],
        ));
    }
}

/// Every text that leaves the guard is one that scrubbing made of the text in its
/// place, so that nothing passes unscrubbed.
pub proof fn law_guard_scrubs_every_text(a: NodeModel, b: NodeModel)
    requires
        capture::may_guard(a, b),
    ensures
        privacy::may_scrub(a.interaction.conversation_id, Ok(b.interaction.conversation_id)),
        privacy::may_scrub(a.interaction.user_prompt, Ok(b.interaction.user_prompt)),
        a.interaction.source_request_id matches Some(s) ==> privacy::may_scrub(
            s,
            Ok(b.interaction.source_request_id->0),
        ),
        a.interaction.model_name matches Some(s) ==> privacy::may_scrub(
            s,
            Ok(b.interaction.model_name->0),
        ),
        a.interaction.model_cot matches Some(s) ==> privacy::may_scrub(
            s,
            Ok(b.interaction.model_cot->0),
        ),
        a.interaction.model_response matches Some(s) ==> privacy::may_scrub(
            s,
            Ok(b.interaction.model_response->0),
        ),
        forall|i: int|
            0 <= i < a.context_items.len() ==> privacy::may_scrub(
                (#[trigger] a.context_items[i]).file_path,
                Ok(b.context_items[i].file_path),
            ) && (a.context_items[i].dirty_patch matches Some(s) ==> privacy::may_scrub(
                s,
                Ok(b.context_items[i].dirty_patch->0),
            )),
        forall|i: int|
            0 <= i < a.tool_executions.len() ==> privacy::may_scrub(
                (#[trigger] a.tool_executions[i]).tool_protocol,
                Ok(b.tool_executions[i].tool_protocol),
            ) && privacy::may_scrub(
                a.tool_executions[i].tool_name,
                Ok(b.tool_executions[i].tool_name),
            ),
{
    let p = privacy::no_policy();
    assert forall|s: Seq<char>, t: Seq<char>| #[trigger] privacy::may_clean(
        p,
        s,
        Ok(t),
    ) implies privacy::may_scrub(s, Ok(t)) by {
        capture::law_no_policy_is_scrub(s, Ok(t));
    }
    assert forall|i: int| 0 <= i < a.context_items.len() implies privacy::may_scrub(
        (#[trigger] a.context_items[i]).file_path,
        Ok(b.context_items[i].file_path),
    ) && (a.context_items[i].dirty_patch matches Some(s) ==> privacy::may_scrub(
        s,
        Ok(b.context_items[i].dirty_patch->0),
    )) by {
        assert(capture::may_guard_context(a.context_items[i], b.context_items[i]));
    }
    assert forall|i: int| 0 <= i < a.tool_executions.len() implies privacy::may_scrub(
        (#[trigger] a.tool_executions[i]).tool_protocol,
        Ok(b.tool_executions[i].tool_protocol),
    ) && privacy::may_scrub(
        a.tool_executions[i].tool_name,
        Ok(b.tool_executions[i].tool_name),
    ) by {
        assert(capture::may_keep_tool(p, a.tool_executions[i], b.tool_executions[i]));
    }
}

/// A capture with nothing to remove: no text that a secret is found in or that the
/// policy names, and no path that the policy keeps out.
pub open spec fn is_plain_capture(a: CaptureModel) -> bool {
    let p = a.policy;
    &&& is_plain(p, a.conversation.title)
    &&& is_plain(p, a.interaction.user_prompt)
    &&& is_plain_opt(p, a.interaction.model_name)
    &&& is_plain_opt(p, a.interaction.model_cot)
    &&& is_plain_opt(p, a.interaction.model_response)
    &&& a.interaction.source_request_id matches Some(s) ==> privacy::is_clean(s)
    &&& forall|i: int|
        0 <= i < a.context_items.len() ==> is_plain(p, (#[trigger] a.context_items[i]).file_path)
            && a.context_items[i].file_path.len() > 0 && !privacy::ignored_path(
            p,
            a.context_items[i].file_path,
        ) && is_plain_opt(p, a.context_items[i].dirty_patch)
    &&& forall|i: int|
        0 <= i < a.tool_executions.len() ==> is_plain(
            p,
            (#[trigger] a.tool_executions[i]).tool_protocol,
        ) && is_plain(p, a.tool_executions[i].tool_name) && are_plain_arguments(
            p,
            a.tool_executions[i].arguments,
        )
}

proof fn lemma_contexts_kept(
    p: PolicyModel,
    xs: Seq<ContextModel>,
    n: nat,
    ys: Seq<ContextModel>,
)
    requires
        n <= xs.len(),
        capture::may_keep_contexts(p, xs, n, ys),
        forall|i: int|
            0 <= i < xs.len() ==> is_plain(p, (#[trigger] xs[i]).file_path) && xs[i].file_path.len()
                > 0 && !privacy::ignored_path(p, xs[i].file_path) && is_plain_opt(
                p,
                xs[i].dirty_patch,
            ),
    ensures
        ys == xs.take(n as int),
    decreases n,
{
    if n == 0 {
        assert(ys =~= xs.take(0));
    } else {
        let x = xs[n - 1];
        assert(is_plain(p, x.file_path));
        if capture::may_drop_context(p, x) {
            law_plain_text_is_left(p, x.file_path, Ok(Seq::<char>::empty()));
        }
        let y = ys.last();
        law_plain_text_is_left(p, x.file_path, Ok(y.file_path));
        lemma_opt(p, x.dirty_patch, y.dirty_patch);
        assert(x == y);
        lemma_contexts_kept(p, xs, (n - 1) as nat, ys.drop_last());
        assert(ys =~= ys.drop_last().push(y));
        assert(xs.take(n as int) =~= xs.take(n - 1).push(x));
    }
}

/// A capture in which there is nothing to remove is stored as it is, in every field.
pub proof fn law_plain_capture_is_stored_as_it_is(a: CaptureModel, b: CaptureModel)
    requires
        capture::may_prepare(a, b),
        is_plain_capture(a),
    ensures
        b == a,
{
    let p = a.policy;
    let x = a.interaction;
    let y = b.interaction;
    law_plain_text_is_left(p, a.conversation.title, Ok(b.conversation.title));
    law_plain_text_is_left(p, x.user_prompt, Ok(y.user_prompt));
    lemma_opt(p, x.model_name, y.model_name);
    lemma_opt(p, x.model_cot, y.model_cot);
    lemma_opt(p, x.model_response, y.model_response);
    if let Some(s) = x.source_request_id {
        privacy::law_clean_text_unchanged(s, Ok(y.source_request_id->0));
    }
    lemma_contexts_kept(p, a.context_items, a.context_items.len(), b.context_items);
    assert(a.context_items.take(a.context_items.len() as int) =~= a.context_items);
    lemma_tools(p, a.tool_executions, b.tool_executions);
    assert(x == y);
    assert(a.conversation == b.conversation);
}

/// A capture in which there is nothing to remove is stored, where it keeps to the
/// limits and its identifiers are safe.
pub proof fn law_plain_capture_is_not_refused(a: CaptureModel, e: PrivacyError)
    requires
        is_plain_capture(a),
        a.context_items.len() <= privacy::MAX_CONTEXT,
        a.tool_executions.len() <= privacy::MAX_TOOLS,
        capture::capture_bytes(a) <= privacy::MAX_CAPTURE_BYTES,
        privacy::safe_identifier(a.conversation.id),
        a.interaction.conversation_id == a.conversation.id,
        a.interaction.source_request_id matches Some(s) ==> privacy::safe_identifier(s),
        forall|i: int|
            0 <= i < a.context_items.len() ==> ((#[trigger] a.context_items[i]).git_blob_sha matches Some(
                s,
            ) ==> privacy::full_oid(s)),
    ensures
        !capture::may_refuse(a, e),
{
    let p = a.policy;
    assert forall|t: Seq<char>| is_plain(p, t) implies !(#[trigger] privacy::may_clean(
        p,
        t,
        Err(e),
    )) by {
        if privacy::may_clean(p, t, Err(e)) {
            law_plain_text_is_left(p, t, Err(e));
        }
    }
    if let Some(s) = a.interaction.source_request_id {
        if privacy::may_scrub(s, Err(e)) {
            privacy::law_clean_text_unchanged(s, Err(e));
        }
    }
    assert forall|i: int| 0 <= i < a.context_items.len() implies !capture::context_may_fail(
        p,
        #[trigger] a.context_items[i],
        e,
    ) by {
        assert(is_plain(p, a.context_items[i].file_path));
    }
    assert forall|i: int| 0 <= i < a.tool_executions.len() implies !capture::tool_may_fail(
        p,
        #[trigger] a.tool_executions[i],
        e,
    ) by {
        let x = a.tool_executions[i];
        assert(is_plain(p, x.tool_protocol));
        if privacy::may_clean_text(p, x.arguments, Err(e)) {
            lemma_arguments(p, x.arguments, Err(e));
        }
    }
}

/// A capture keeps its identity and its shape, whatever is removed from its texts:
/// each text that may be absent is there exactly where it was, tool executions stay in
/// their places, and no context item is added.
pub proof fn law_capture_keeps_the_shape(a: CaptureModel, b: CaptureModel)
    requires
        capture::may_prepare(a, b),
    ensures
        b.source == a.source,
        b.conversation.id == a.conversation.id,
        b.conversation.created_at == a.conversation.created_at,
        b.interaction.id == a.interaction.id,
        b.interaction.conversation_id == a.interaction.conversation_id,
        b.interaction.parent_id == a.interaction.parent_id,
        b.interaction.timestamp == a.interaction.timestamp,
        b.interaction.author == a.interaction.author,
        b.interaction.source_request_id is Some <==> a.interaction.source_request_id is Some,
        b.interaction.model_name is Some <==> a.interaction.model_name is Some,
        b.interaction.model_cot is Some <==> a.interaction.model_cot is Some,
        b.interaction.model_response is Some <==> a.interaction.model_response is Some,
        b.context_items.len() <= a.context_items.len(),
        b.tool_executions.len() == a.tool_executions.len(),
        forall|i: int|
            0 <= i < a.tool_executions.len() ==> {
                let x = #[trigger] a.tool_executions[i];
                let y = b.tool_executions[i];
                &&& y.id == x.id
                &&& y.interaction_id == x.interaction_id
                &&& y.status == x.status
            },
{
    lemma_fewer_contexts(a.policy, a.context_items, a.context_items.len(), b.context_items);
    assert forall|i: int| 0 <= i < a.tool_executions.len() implies {
        let x = #[trigger] a.tool_executions[i];
        let y = b.tool_executions[i];
        &&& y.id == x.id
        &&& y.interaction_id == x.interaction_id
        &&& y.status == x.status
    } by {
        assert(capture::may_keep_tool(a.policy, a.tool_executions[i], b.tool_executions[i]));
    }
}

proof fn lemma_fewer_contexts(
    p: PolicyModel,
    xs: Seq<ContextModel>,
    n: nat,
    ys: Seq<ContextModel>,
)
    requires
        n <= xs.len(),
        capture::may_keep_contexts(p, xs, n, ys),
    ensures
        ys.len() <= n,
    decreases n,
{
    if n > 0 {
        let x = xs[n - 1];
        if capture::may_drop_context(p, x) && capture::may_keep_contexts(p, xs, (n - 1) as nat, ys) {
            lemma_fewer_contexts(p, xs, (n - 1) as nat, ys);
        } else {
            lemma_fewer_contexts(p, xs, (n - 1) as nat, ys.drop_last());
        }
    }
}

/// No context item under a path that the policy keeps out is stored: each that is
/// stored stands for one of the given ones whose path the policy does not keep out,
/// under the same identity and for the same lines.
pub proof fn law_ignored_paths_are_not_stored(a: CaptureModel, b: CaptureModel, j: int)
    requires
        capture::may_prepare(a, b),
        0 <= j < b.context_items.len(),
    ensures
        exists|i: int|
            {
                &&& 0 <= i < a.context_items.len()
                &&& b.context_items[j].id == (#[trigger] a.context_items[i]).id
                &&& b.context_items[j].interaction_id == a.context_items[i].interaction_id
                &&& b.context_items[j].git_blob_sha == a.context_items[i].git_blob_sha
                &&& b.context_items[j].start_line == a.context_items[i].start_line
                &&& b.context_items[j].end_line == a.context_items[i].end_line
                &&& b.context_items[j].dirty_patch is Some
                    <==> a.context_items[i].dirty_patch is Some
                &&& a.context_items[i].file_path != ".thoughtignore"@
                &&& forall|k: int|
                    0 <= k < a.policy.paths.len() ==> a.context_items[i].file_path
                        != #[trigger] a.policy.paths[k] && !text::has_prefix(
                        a.context_items[i].file_path,
                        a.policy.paths[k] + "/"@,
                    )
            },
{
    let i = lemma_context_origin(
        a.policy,
        a.context_items,
        a.context_items.len(),
        b.context_items,
        j,
    );
    assert(capture::may_keep_context(a.policy, a.context_items[i], b.context_items[j]));
    assert(b.context_items[j].id == a.context_items[i].id);
}

proof fn lemma_context_origin(
    p: PolicyModel,
    xs: Seq<ContextModel>,
    n: nat,
    ys: Seq<ContextModel>,
    j: int,
) -> (i: int)
    requires
        n <= xs.len(),
        capture::may_keep_contexts(p, xs, n, ys),
        0 <= j < ys.len(),
    ensures
        0 <= i < n,
        capture::may_keep_context(p, xs[i], ys[j]),
    decreases n,
{
    let x = xs[n - 1];
    if capture::may_drop_context(p, x) && capture::may_keep_contexts(p, xs, (n - 1) as nat, ys) {
        lemma_context_origin(p, xs, (n - 1) as nat, ys, j)
    } else if j == ys.len() - 1 {
        n - 1
    } else {
        lemma_context_origin(p, xs, (n - 1) as nat, ys.drop_last(), j)
    }
}

/// A published node in which there is nothing to remove is imported as it is: the
/// capture holds the same interaction, context items and tool executions.
pub proof fn law_plain_node_is_imported_as_it_is(a: NodeModel, c: CaptureModel)
    requires
        batch::may_import(a, c),
        is_plain_node(a),
    ensures
        c.interaction == a.interaction,
        c.context_items == a.context_items,
        c.tool_executions == a.tool_executions,
        c.conversation.id == a.interaction.conversation_id,
        c.conversation.created_at == a.interaction.timestamp,
{
    let b = NodeModel {
        interaction: c.interaction,
        context_items: c.context_items,
        tool_executions: c.tool_executions,
        artifact_links: a.artifact_links,
    };
    law_plain_node_is_published_as_it_is(a, b);
}

/// An import keeps the identity and the shape of a node, whatever is removed from its
/// texts.
pub proof fn law_import_keeps_the_shape(a: NodeModel, c: CaptureModel)
    requires
        batch::may_import(a, c),
    ensures
        c.interaction.id == a.interaction.id,
        c.interaction.parent_id == a.interaction.parent_id,
        c.interaction.timestamp == a.interaction.timestamp,
        c.interaction.author == a.interaction.author,
        c.interaction.source_request_id is Some <==> a.interaction.source_request_id is Some,
        c.interaction.model_name is Some <==> a.interaction.model_name is Some,
        c.interaction.model_cot is Some <==> a.interaction.model_cot is Some,
        c.interaction.model_response is Some <==> a.interaction.model_response is Some,
        c.context_items.len() == a.context_items.len(),
        c.tool_executions.len() == a.tool_executions.len(),
        c.conversation.id == c.interaction.conversation_id,
{
    law_guard_keeps_the_shape(
        a,
        (NodeModel {
            interaction: c.interaction,
            context_items: c.context_items,
            tool_executions: c.tool_executions,
            artifact_links: a.artifact_links,
        }),
    );
}

/// The last check of links leaves a link with an unremarkable attribution as it is,
/// and every link in its place.
pub proof fn law_checked_link_stays(a: LinkModel, b: LinkModel)
    requires
        capture::may_guard_link(a, b),
    ensures
        b.interaction_id == a.interaction_id,
        b.git_commit_hash == a.git_commit_hash,
        b.link_type == a.link_type,
        b.linked_by is Some <==> a.linked_by is Some,
        (a.linked_by matches Some(by) ==> privacy::is_clean(by)) ==> b == a,
{
    let p = privacy::no_policy();
    if let Some(by) = a.linked_by {
        if privacy::is_clean(by) {
            lemma_opt(p, a.linked_by, b.linked_by);
        }
    }
}

} // verus!
