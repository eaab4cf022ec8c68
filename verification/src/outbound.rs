//! The last checks on bytes before they leave the repository. They look at the
//! precise bytes handed over, not at the values they were made from.

use crate::capture;
use crate::capture::{final_scrub_for_sync, final_validate_links};
use crate::derivation;
use crate::derivation::{attribution_ok, is_automatic_link_type, is_safe_commit_sha};
use crate::digest::put_bytes;
use crate::fault::SyncError;
use crate::json;
use crate::json::{Json, JsonModel, parse_json};
use crate::models;
use crate::models::{ArtifactLink, LinkModel, ToolModel, copy_opt_text, parse_uuid};
use crate::privacy;
use crate::privacy::{PrivacyError, scrub, validate_sanitized_json};
use crate::sync;
use crate::sync::validate_remote_node;
use crate::text::{string_from_bytes, text_equal};
use crate::tree::{
    BlobModel, LinkRecordModel, MAX_SYNC_BLOB_BYTES, NodeBlob, NodeModel, SyncLinkRecord,
    SyncNode,
};
use vstd::prelude::*;
use vstd::string::*;
use vstd::utf8::*;

verus! {

/// A text that scrubbing may leave as it is. Scrubbing knows its own markers,
/// so such a text is clean or holds markers only.
pub open spec fn text_may_pass(t: Seq<char>) -> bool {
    privacy::may_scrub(t, Ok(t))
}

/// A text on which scrubbing may fail, or which it may change.
pub open spec fn text_may_fail(t: Seq<char>, f: SyncError) -> bool {
    ||| f == SyncError::FinalStringInvalid && exists|e: PrivacyError| #[trigger]
        privacy::may_scrub(t, Err(e))
    ||| f == SyncError::UnredactedSecret && exists|s: Seq<char>| #[trigger]
        privacy::may_scrub(t, Ok(s)) && s != t
}

/// A document all of whose texts and names may pass.
pub open spec fn json_may_pass(a: JsonModel) -> bool
    decreases a,
{
    match a {
        JsonModel::Text(t) => text_may_pass(t),
        JsonModel::List(xs) => forall|i: int|
            0 <= i < xs.len() ==> json_may_pass(#[trigger] xs[i]),
        JsonModel::Object(xs) => forall|i: int|
            0 <= i < xs.len() ==> text_may_pass((#[trigger] xs[i]).0) && json_may_pass(xs[i].1),
        _ => true,
    }
}

/// A document with a text or name that may fail.
pub open spec fn json_may_fail(a: JsonModel, f: SyncError) -> bool
    decreases a, 0nat,
{
    match a {
        JsonModel::Text(t) => text_may_fail(t, f),
        JsonModel::List(xs) => list_may_fail(xs, xs.len(), f),
        JsonModel::Object(xs) => object_may_fail(xs, xs.len(), f),
        _ => false,
    }
}

/// Such a text or name among the first `n` documents of a list.
pub open spec fn list_may_fail(xs: Seq<JsonModel>, n: nat, f: SyncError) -> bool
    decreases xs, n,
{
    if n == 0 || n > xs.len() {
        false
    } else {
        json_may_fail(xs[n - 1], f) || list_may_fail(xs, (n - 1) as nat, f)
    }
}

/// Such a text or name among the first `n` members of an object.
pub open spec fn object_may_fail(xs: Seq<(Seq<char>, JsonModel)>, n: nat, f: SyncError) -> bool
    decreases xs, n,
{
    if n == 0 || n > xs.len() {
        false
    } else {
        text_may_fail(xs[n - 1].0, f) || json_may_fail(xs[n - 1].1, f) || object_may_fail(
            xs,
            (n - 1) as nat,
            f,
        )
    }
}

proof fn lemma_list_fails(xs: Seq<JsonModel>, i: int, n: nat, f: SyncError)
    requires
        0 <= i < n <= xs.len(),
        json_may_fail(xs[i], f),
    ensures
        list_may_fail(xs, n, f),
    decreases n,
{
    if i < n - 1 {
        lemma_list_fails(xs, i, (n - 1) as nat, f);
    }
}

proof fn lemma_object_fails(xs: Seq<(Seq<char>, JsonModel)>, i: int, n: nat, f: SyncError)
    requires
        0 <= i < n <= xs.len(),
        text_may_fail(xs[i].0, f) || json_may_fail(xs[i].1, f),
    ensures
        object_may_fail(xs, n, f),
    decreases n,
{
    if i < n - 1 {
        lemma_object_fails(xs, i, (n - 1) as nat, f);
    }
}

fn inspect_text(t: &str) -> (r: Result<(), SyncError>)
    ensures
        match r {
            Ok(_) => text_may_pass(t@),
            Err(f) => text_may_fail(t@, f),
        },
{
    match scrub(t) {
        Err(_) => Err(SyncError::FinalStringInvalid),
        Ok(s) => if text_equal(s.as_str(), t) {
            Ok(())
        } else {
            Err(SyncError::UnredactedSecret)
        },
    }
}

/// Looks at every text and name of a document.
fn inspect_json(value: &Json) -> (r: Result<(), SyncError>)
    ensures
        match r {
            Ok(_) => json_may_pass(value@),
            Err(f) => json_may_fail(value@, f),
        },
    decreases value,
{
    match value {
        Json::Text(t) => inspect_text(t.as_str()),
        Json::List(list) => {
            let ghost xs = json::list_models(list@);
            proof {
                json::lemma_list_model(*list);
            }
            let mut i: usize = 0;
            while i < list.len()
                invariant
                    i <= list.len(),
                    *value == Json::List(*list),
                    xs == json::list_models(list@),
                    value@ == JsonModel::List(xs),
                    forall|k: int| 0 <= k < i ==> json_may_pass(#[trigger] xs[k]),
                decreases list.len() - i,
            {
                assert(xs[i as int] == list@[i as int]@);
                assert(decreases_to!(*value => list@[i as int])) by {
                    assert(decreases_to!(value->List_0 => value->List_0@));
                    assert(decreases_to!(list@ => list@[i as int]));
                }
                match inspect_json(&list[i]) {
                    Ok(_) => {},
                    Err(f) => {
                        proof {
                            lemma_list_fails(xs, i as int, xs.len(), f);
                        }
                        return Err(f);
                    },
                }
                i += 1;
            }
            Ok(())
        },
        Json::Object(members) => {
            let ghost xs = json::member_models(members@);
            proof {
                json::lemma_object_model(*members);
            }
            let mut i: usize = 0;
            while i < members.len()
                invariant
                    i <= members.len(),
                    *value == Json::Object(*members),
                    xs == json::member_models(members@),
                    value@ == JsonModel::Object(xs),
                    forall|k: int|
                        0 <= k < i ==> text_may_pass((#[trigger] xs[k]).0) && json_may_pass(
                            xs[k].1,
                        ),
                decreases members.len() - i,
            {
                let m = &members[i];
                assert(xs[i as int] == (m.name@, m.value@));
                assert(decreases_to!(*value => members@[i as int].value)) by {
                    assert(decreases_to!(value->Object_0 => value->Object_0@));
                    assert(decreases_to!(members@ => members@[i as int]));
                }
                match inspect_text(m.name.as_str()) {
                    Ok(_) => {},
                    Err(f) => {
                        proof {
                            lemma_object_fails(xs, i as int, xs.len(), f);
                        }
                        return Err(f);
                    },
                }
                match inspect_json(&m.value) {
                    Ok(_) => {},
                    Err(f) => {
                        proof {
                            lemma_object_fails(xs, i as int, xs.len(), f);
                        }
                        return Err(f);
                    },
                }
                i += 1;
            }
            Ok(())
        },
        _ => Ok(()),
    }
}

/// The document that bytes stand for.
pub open spec fn document(body: Seq<u8>) -> Option<JsonModel> {
    if valid_utf8(body) {
        json::parsed_json(decode_utf8(body))
    } else {
        None
    }
}

/// Bytes all of whose texts may pass.
pub open spec fn bytes_may_pass(body: Seq<u8>) -> bool {
    document(body) matches Some(doc) && json_may_pass(doc)
}

/// Bytes that are no document, or one with a text that may fail.
pub open spec fn bytes_may_fail(body: Seq<u8>, f: SyncError) -> bool {
    match document(body) {
        None => f == SyncError::Malformed,
        Some(doc) => json_may_fail(doc, f),
    }
}

/// Looks at every text in the bytes of a document.
pub fn inspect_final_strings(body: &Vec<u8>) -> (r: Result<(), SyncError>)
    ensures
        match r {
            Ok(_) => bytes_may_pass(body@),
            Err(f) => bytes_may_fail(body@, f),
        },
{
    let mut bytes: Vec<u8> = Vec::new();
    put_bytes(&mut bytes, body.as_slice());
    assert(bytes@ =~= body@);
    match string_from_bytes(bytes) {
        None => Err(SyncError::Malformed),
        Some(text) => match parse_json(text.as_str()) {
            None => Err(SyncError::Malformed),
            Some(doc) => inspect_json(&doc),
        },
    }
}

/// The arguments of all tools may pass as sanitized.
pub open spec fn tools_may_pass(tools: Seq<ToolModel>, n: nat) -> bool
    decreases n,
{
    if n == 0 || n > tools.len() {
        true
    } else {
        tools_may_pass(tools, (n - 1) as nat) && privacy::may_sanitize(
            tools[n - 1].arguments,
            Ok(()),
        )
    }
}

/// The arguments of a tool may fail.
pub open spec fn tools_may_fail(tools: Seq<ToolModel>) -> bool {
    exists|k: int, e: PrivacyError|
        0 <= k < tools.len() && #[trigger] privacy::may_sanitize(tools[k].arguments, Err(e))
}

/// A serialized interaction that may pass.
pub open spec fn node_may_pass(b: BlobModel) -> bool {
    &&& b.body.len() <= MAX_SYNC_BLOB_BYTES
    &&& b.node matches Some(n)
    &&& sync::node_fault(n) is None
    &&& tools_may_pass(n.tool_executions, n.tool_executions.len())
    &&& bytes_may_pass(b.body)
}

/// A serialized interaction that may fail so.
pub open spec fn node_may_fail(b: BlobModel, f: SyncError) -> bool {
    if b.body.len() > MAX_SYNC_BLOB_BYTES {
        f == SyncError::NodeSerializationTooLarge
    } else {
        match b.node {
            None => f == SyncError::Malformed,
            Some(n) => match sync::node_fault(n) {
                Some(g) => f == g,
                None => {
                    ||| f == SyncError::UnsafeToolArguments && tools_may_fail(n.tool_executions)
                    ||| bytes_may_fail(b.body, f)
                },
            },
        }
    }
}

/// Checks the bytes of an interaction.
pub fn validate_final_node_bytes(blob: &NodeBlob) -> (r: Result<(), SyncError>)
    ensures
        match r {
            Ok(_) => node_may_pass(blob@),
            Err(f) => node_may_fail(blob@, f),
        },
{
    if blob.body.len() > MAX_SYNC_BLOB_BYTES {
        return Err(SyncError::NodeSerializationTooLarge);
    }
    let node = match &blob.node {
        Some(node) => node,
        None => {
            return Err(SyncError::Malformed);
        },
    };
    match validate_remote_node(node) {
        Ok(_) => {},
        Err(f) => {
            return Err(f);
        },
    }
    let ghost ts = node@.tool_executions;
    let mut k: usize = 0;
    while k < node.tool_executions.len()
        invariant
            k <= node.tool_executions.len(),
            blob@.node == Some(node@),
            blob@.body.len() <= MAX_SYNC_BLOB_BYTES,
            sync::node_fault(node@) is None,
            ts == models::tool_models(node.tool_executions@),
            ts == node@.tool_executions,
            tools_may_pass(ts, k as nat),
        decreases node.tool_executions.len() - k,
    {
        assert(ts[k as int] == node.tool_executions@[k as int]@);
        match validate_sanitized_json(node.tool_executions[k].arguments.as_str()) {
            Ok(_) => {},
            Err(e) => {
                assert(privacy::may_sanitize(ts[k as int].arguments, Err(e)));
                return Err(SyncError::UnsafeToolArguments);
            },
        }
        k += 1;
    }
    assert(ts.len() == node.tool_executions@.len());
    inspect_final_strings(&blob.body)
}

/// A link record that may be exchanged.
pub open spec fn valid_final_link(r: LinkRecordModel) -> bool {
    &&& models::parsed_uuid(r.interaction_id) is Some
    &&& derivation::is_commit_sha(r.git_commit_hash)
    &&& derivation::automatic_link_type(r.link_type)
    &&& derivation::valid_attribution(r.linked_by)
}

/// A serialized link record that may pass.
pub open spec fn link_may_pass(body: Seq<u8>, record: Option<LinkRecordModel>) -> bool {
    &&& body.len() <= MAX_SYNC_BLOB_BYTES
    &&& record matches Some(r)
    &&& valid_final_link(r)
    &&& bytes_may_pass(body)
}

/// A serialized link record that may fail so.
pub open spec fn link_record_may_fail(
    body: Seq<u8>,
    record: Option<LinkRecordModel>,
    f: SyncError,
) -> bool {
    if body.len() > MAX_SYNC_BLOB_BYTES {
        f == SyncError::LinkSerializationTooLarge
    } else {
        match record {
            None => f == SyncError::Malformed,
            Some(r) => if !valid_final_link(r) {
                f == SyncError::InvalidFinalLink
            } else {
                bytes_may_fail(body, f)
            },
        }
    }
}

/// Checks the bytes of a link record.
pub fn validate_final_link_bytes(body: &Vec<u8>, record: &Option<SyncLinkRecord>) -> (r: Result<
    (),
    SyncError,
>)
    ensures
        match r {
            Ok(_) => link_may_pass(body@, opt_record(*record)),
            Err(f) => link_record_may_fail(body@, opt_record(*record), f),
        },
{
    if body.len() > MAX_SYNC_BLOB_BYTES {
        return Err(SyncError::LinkSerializationTooLarge);
    }
    let record = match record {
        Some(record) => record,
        None => {
            return Err(SyncError::Malformed);
        },
    };
    let parses = match parse_uuid(record.interaction_id.as_str()) {
        Ok(_) => true,
        Err(_) => false,
    };
    if !parses || !is_safe_commit_sha(record.git_commit_hash.as_str()) || !is_automatic_link_type(
        record.link_type.as_str(),
    ) || !attribution_ok(&record.linked_by) {
        return Err(SyncError::InvalidFinalLink);
    }
    inspect_final_strings(body)
}

/// The contents of a record that may be absent.
pub open spec fn opt_record(o: Option<SyncLinkRecord>) -> Option<LinkRecordModel> {
    match o {
        Some(r) => Some(r@),
        None => None,
    }
}

/// A node as it may leave the repository.
pub open spec fn may_leave(a: NodeModel, b: NodeModel) -> bool {
    exists|c: NodeModel|
        {
            &&& #[trigger] capture::may_guard(a, c)
            &&& b.interaction == c.interaction
            &&& b.context_items == c.context_items
            &&& b.tool_executions == c.tool_executions
            &&& capture::may_guard_links(a.artifact_links, b.artifact_links)
        }
}

/// Scrubs a node and its links for the last time before serialization.
pub fn guard_node(node: &SyncNode) -> (r: Result<SyncNode, SyncError>)
    ensures
        match r {
            Ok(n) => may_leave(node@, n@),
            Err(f) => {
                ||| f == SyncError::UnsafeNode && exists|e: PrivacyError| #[trigger]
                    capture::guard_may_fail(node@, e)
                ||| f == SyncError::UnsafeLink && exists|k: int, e: PrivacyError|
                    0 <= k < node@.artifact_links.len() && #[trigger] capture::link_may_fail(
                        node@.artifact_links[k],
                        e,
                    )
            },
        },
{
    let safe = match final_scrub_for_sync(node) {
        Ok(n) => n,
        Err(_) => {
            return Err(SyncError::UnsafeNode);
        },
    };
    let ghost c = safe@;
    let links = match final_validate_links(&node.artifact_links) {
        Ok(links) => links,
        Err(e) => {
            proof {
                let k = choose|i: int|
                    0 <= i < node.artifact_links@.len() && capture::link_may_fail(
                        (#[trigger] node.artifact_links@[i])@,
                        e,
                    );
                assert(node@.artifact_links[k] == node.artifact_links@[k]@);
            }
            return Err(SyncError::UnsafeLink);
        },
    };
    let SyncNode { interaction, context_items, tool_executions, artifact_links } = safe;
    let r = SyncNode { interaction, context_items, tool_executions, artifact_links: links };
    proof {
        assert(capture::may_guard(node@, c));
        let xs = node@.artifact_links;
        let ys = r@.artifact_links;
        assert forall|i: int| 0 <= i < xs.len() implies capture::may_guard_link(
            xs[i],
            #[trigger] ys[i],
        ) by {
            assert(xs[i] == node.artifact_links@[i]@);
            assert(ys[i] == links@[i]@);
        }
    }
    Ok(r)
}

/// The record of a link as it may leave the repository.
pub fn safe_link(link: &ArtifactLink) -> (r: Result<SyncLinkRecord, SyncError>)
    ensures
        match r {
            Ok(record) => exists|b: LinkModel|
                {
                    &&& #[trigger] capture::may_guard_link(link@, b)
                    &&& record@ == (LinkRecordModel {
                        interaction_id: link@.interaction_id.text(),
                        git_commit_hash: link@.git_commit_hash,
                        link_type: link@.link_type,
                        linked_by: b.linked_by,
                    })
                },
            Err(f) => f == SyncError::UnsafeLinkEvent && exists|e: PrivacyError| #[trigger]
                capture::link_may_fail(link@, e),
        },
{
    let mut list: Vec<ArtifactLink> = Vec::new();
    list.push(link.clone());
    match final_validate_links(&list) {
        Err(e) => {
            proof {
                let k = choose|i: int|
                    0 <= i < list@.len() && capture::link_may_fail((#[trigger] list@[i])@, e);
                assert(list@[k]@ == link@);
                assert(capture::link_may_fail(link@, e));
            }
            Err(SyncError::UnsafeLinkEvent)
        },
        Ok(links) => {
            assert(list@[0]@ == link@);
            assert(capture::may_guard_link(link@, links@[0]@));
            Ok(
                SyncLinkRecord {
                    interaction_id: link.interaction_id.as_str(),
                    git_commit_hash: link.git_commit_hash.as_str().to_owned(),
                    link_type: link.link_type.clone(),
                    linked_by: copy_opt_text(&links[0].linked_by),
                },
            )
        },
    }
}

} // verus!
