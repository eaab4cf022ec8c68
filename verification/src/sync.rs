//! Exchange of interactions through a tree: what of a received tree is
//! accepted, and in which order it is imported.

use crate::derivation;
use crate::derivation::is_safe_commit_sha;
use crate::digest;
use crate::fault::SyncError;
use crate::models;
use crate::models::{
    ArtifactLink, ContextModel, InteractionId, LinkModel, format_uuid, random_uuid,
};
use crate::text;
use crate::text::{bytes_len, chars_of, glue, is_blank, starts_with, text_equal};
use crate::textset::TextSet;
use crate::tree;
use crate::tree::{LinkRecordModel, NodeModel, SyncLinkRecord, SyncNode};
use vstd::hash_set::StringHashSet;
use vstd::prelude::*;
use vstd::string::*;
use vstd::utf8::*;

verus! {

/// The layout version that outbound projection writes.
pub const SYNC_FORMAT_VERSION: u64 = 5;

/// A name that projections may be read from or written to.
pub open spec fn valid_ref_name(s: Seq<char>) -> bool {
    &&& text::has_prefix(s, "refs/cvc/"@) || text::has_prefix(s, "refs/remotes/"@)
    &&& forall|i: int| 0 <= i < s.len() ==> ref_char(#[trigger] s[i])
}

/// A character that a ref name may hold.
pub open spec fn ref_char(c: char) -> bool {
    ||| 'a' <= c <= 'z'
    ||| 'A' <= c <= 'Z'
    ||| '0' <= c <= '9'
    ||| c == '/'
    ||| c == '-'
    ||| c == '_'
}

/// Whether projections may be read from or written to a ref.
pub fn validate_ref_name(ref_name: &str) -> (r: bool)
    ensures
        r == valid_ref_name(ref_name@),
{
    if !starts_with(ref_name, "refs/cvc/") && !starts_with(ref_name, "refs/remotes/") {
        return false;
    }
    let chars = chars_of(ref_name);
    let mut i: usize = 0;
    while i < chars.len()
        invariant
            i <= chars.len(),
            chars@ == ref_name@,
            forall|k: int| 0 <= k < i ==> ref_char(#[trigger] chars@[k]),
        decreases chars.len() - i,
    {
        let c = chars[i];
        if !((c >= 'a' && c <= 'z') || (c >= 'A' && c <= 'Z') || (c >= '0' && c <= '9') || c == '/'
            || c == '-' || c == '_') {
            assert(!ref_char(ref_name@[i as int]));
            return false;
        }
        i += 1;
    }
    true
}

/// A staging ref: only such refs may be removed when a candidate is abandoned.
pub open spec fn valid_candidate_ref(s: Seq<char>) -> bool {
    text::has_prefix(s, "refs/cvc/candidate-"@) && valid_ref_name(s)
}

/// Checks that a ref is a staging ref, so that clean-up can never delete
/// publication state.
pub fn check_candidate_ref(temporary_ref: &str) -> (r: Result<(), SyncError>)
    ensures
        r == (if valid_candidate_ref(temporary_ref@) {
            Ok::<(), SyncError>(())
        } else {
            Err::<(), SyncError>(SyncError::InvalidCandidateRef)
        }),
{
    if !starts_with(temporary_ref, "refs/cvc/candidate-") || !validate_ref_name(temporary_ref) {
        return Err(SyncError::InvalidCandidateRef);
    }
    Ok(())
}

proof fn lemma_candidate(prefix: Seq<char>, v: u128)
    requires
        text::has_prefix(prefix, "refs/cvc/candidate-"@),
        forall|i: int| 0 <= i < prefix.len() ==> ref_char(#[trigger] prefix[i]),
    ensures
        valid_candidate_ref(prefix + models::uuid_text(v)),
{
    reveal_strlit("refs/cvc/candidate-");
    reveal_strlit("refs/cvc/");
    let s = prefix + models::uuid_text(v);
    let h = digest::hex_text(models::uuid_bytes(v));
    digest::lemma_hex_text(models::uuid_bytes(v));
    let u = models::uuid_text(v);
    assert forall|i: int| 0 <= i < u.len() implies ref_char(#[trigger] u[i]) by {
        if i < 8 {
            assert(u[i] == h[i]);
        } else if 8 < i < 13 {
            assert(u[i] == h[i - 1]);
        } else if 13 < i < 18 {
            assert(u[i] == h[i - 2]);
        } else if 18 < i < 23 {
            assert(u[i] == h[i - 3]);
        } else if 23 < i {
            assert(u[i] == h[i - 4]);
        } else {
            assert(u[i] == '-');
        }
    }
    assert(s.take(19) =~= prefix.take(19));
    assert(s.take(9) =~= prefix.take(19).take(9));
    assert("refs/cvc/candidate-"@.take(9) =~= "refs/cvc/"@);
}

/// A fresh staging ref for a projection.
pub fn candidate_ref() -> (r: String)
    ensures
        valid_candidate_ref(r@),
        exists|v: u128| r@ == "refs/cvc/candidate-"@ + #[trigger] models::uuid_text(v),
{
    let v: u128 = random_uuid();
    let id = format_uuid(v);
    proof {
        reveal_strlit("refs/cvc/candidate-");
        assert("refs/cvc/candidate-"@.take(19) =~= "refs/cvc/candidate-"@);
        lemma_candidate("refs/cvc/candidate-"@, v);
    }
    glue("refs/cvc/candidate-", id.as_str())
}

/// A fresh staging ref for a redaction.
pub fn redaction_candidate_ref() -> (r: String)
    ensures
        valid_candidate_ref(r@),
        exists|v: u128| r@ == "refs/cvc/candidate-redact-"@ + #[trigger] models::uuid_text(v),
{
    let v: u128 = random_uuid();
    let id = format_uuid(v);
    proof {
        reveal_strlit("refs/cvc/candidate-");
        reveal_strlit("refs/cvc/candidate-redact-");
        assert("refs/cvc/candidate-redact-"@.take(19) =~= "refs/cvc/candidate-"@);
        lemma_candidate("refs/cvc/candidate-redact-"@, v);
    }
    glue("refs/cvc/candidate-redact-", id.as_str())
}

/// A text that Git accepts as the (possibly abbreviated) name of an object.
pub open spec fn is_oid_text(s: Seq<char>) -> bool {
    &&& 1 <= s.len() <= 40
    &&& forall|i: int| 0 <= i < s.len() ==> digest::is_hex_char(#[trigger] s[i])
}

/// Whether Git accepts a text as the name of an object.
///
/// Calls `git2::Oid::from_str`, which refuses exactly the empty text, a text of
/// more than forty characters, and one with a character that is no hexadecimal
/// digit.
#[verifier::external_body]
pub(crate) fn oid_parses(text: &str) -> (r: bool)
    ensures
        r == is_oid_text(text@),
{
    git2::Oid::from_str(text).is_ok()
}

/// A link type that a node may hold.
pub open spec fn embedded_link_type(s: Seq<char>) -> bool {
    s == "generated"@ || s == "temporal"@ || s == "verified"@
}

/// A link that may stand in a node of this interaction.
pub open spec fn valid_embedded_link(link: LinkModel, id: InteractionId) -> bool {
    &&& link.interaction_id == id
    &&& is_oid_text(link.git_commit_hash)
    &&& embedded_link_type(link.link_type)
    &&& match link.linked_by {
        Some(s) => text::trimmed(s).len() > 0,
        None => true,
    }
}

/// Checks the links that stand in a node.
pub fn validate_legacy_links(node: &SyncNode) -> (r: Result<(), SyncError>)
    ensures
        r == (if forall|k: int|
            0 <= k < node@.artifact_links.len() ==> valid_embedded_link(
                #[trigger] node@.artifact_links[k],
                node@.interaction.id,
            ) {
            Ok::<(), SyncError>(())
        } else {
            Err::<(), SyncError>(SyncError::InvalidEmbeddedLink)
        }),
{
    let ghost s = node@.artifact_links;
    let mut k: usize = 0;
    while k < node.artifact_links.len()
        invariant
            k <= node.artifact_links.len(),
            s == node@.artifact_links,
            s == models::link_models(node.artifact_links@),
            forall|i: int|
                0 <= i < k ==> valid_embedded_link(#[trigger] s[i], node@.interaction.id),
        decreases node.artifact_links.len() - k,
    {
        let link = &node.artifact_links[k];
        assert(s[k as int] == link@);
        let kind = link.link_type.as_str();
        let by_ok = match &link.linked_by {
            Some(x) => !is_blank(x.as_str()),
            None => true,
        };
        if link.interaction_id != node.interaction.id || !oid_parses(link.git_commit_hash.as_str())
            || !(text_equal(kind, "generated") || text_equal(kind, "temporal") || text_equal(
            kind,
            "verified",
        )) || !by_ok {
            assert(!valid_embedded_link(node@.artifact_links[k as int], node@.interaction.id));
            return Err(SyncError::InvalidEmbeddedLink);
        }
        k += 1;
    }
    Ok(())
}

/// A context item that may stand in a node of this interaction.
pub open spec fn valid_context(item: ContextModel, id: InteractionId) -> bool {
    &&& item.interaction_id == id
    &&& match item.git_blob_sha {
        Some(s) => derivation::is_commit_sha(s),
        None => true,
    }
    &&& match item.start_line {
        Some(n) => n >= 0,
        None => true,
    }
    &&& match item.end_line {
        Some(n) => n >= 0,
        None => true,
    }
}

/// What is structurally wrong with a node.
pub open spec fn node_fault(node: NodeModel) -> Option<SyncError> {
    let id = node.interaction.id;
    if node.interaction.conversation_id.len() == 0 || text::byte_len(node.interaction.conversation_id)
        > 256 || (node.interaction.source_request_id matches Some(s) && text::byte_len(s) > 256) {
        Some(SyncError::InvalidRemoteIdentity)
    } else if !(forall|k: int|
        0 <= k < node.context_items.len() ==> valid_context(#[trigger] node.context_items[k], id)) {
        Some(SyncError::InvalidContextItem)
    } else if !(forall|k: int|
        0 <= k < node.tool_executions.len() ==> (#[trigger] node.tool_executions[k]).interaction_id
            == id) {
        Some(SyncError::InvalidToolItem)
    } else if !(forall|k: int|
        0 <= k < node.artifact_links.len() ==> valid_embedded_link(
            #[trigger] node.artifact_links[k],
            id,
        )) {
        Some(SyncError::InvalidEmbeddedLink)
    } else {
        None
    }
}

/// Validate remote structural values before any privacy transformation.  These
/// fields define relationships or closed protocol states; redacting one would
/// turn a hostile record into a different immutable record.
pub fn validate_remote_node(node: &SyncNode) -> (r: Result<(), SyncError>)
    ensures
        match node_fault(node@) {
            None => r is Ok,
            Some(f) => r matches Err(e) && e == f,
        },
{
    let long_request = match &node.interaction.source_request_id {
        Some(s) => bytes_len(s.as_str()) > 256,
        None => false,
    };
    let empty = node.interaction.conversation_id.as_str().is_empty();
    if empty || bytes_len(node.interaction.conversation_id.as_str()) > 256 || long_request {
        return Err(SyncError::InvalidRemoteIdentity);
    }
    let ghost id = node@.interaction.id;
    let ghost cs = node@.context_items;
    let mut k: usize = 0;
    while k < node.context_items.len()
        invariant
            k <= node.context_items.len(),
            cs == node@.context_items,
            cs == models::context_models(node.context_items@),
            id == node@.interaction.id,
            forall|i: int| 0 <= i < k ==> valid_context(#[trigger] cs[i], id),
            node@.interaction.conversation_id.len() > 0,
            text::byte_len(node@.interaction.conversation_id) <= 256,
            node@.interaction.source_request_id matches Some(s) ==> text::byte_len(s) <= 256,
        decreases node.context_items.len() - k,
    {
        let item = &node.context_items[k];
        assert(cs[k as int] == item@);
        let sha_ok = match &item.git_blob_sha {
            Some(s) => is_safe_commit_sha(s.as_str()),
            None => true,
        };
        let start_ok = match item.start_line {
            Some(n) => n >= 0,
            None => true,
        };
        let end_ok = match item.end_line {
            Some(n) => n >= 0,
            None => true,
        };
        if item.interaction_id != node.interaction.id || !sha_ok || !start_ok || !end_ok {
            assert(!valid_context(node@.context_items[k as int], id));
            return Err(SyncError::InvalidContextItem);
        }
        k += 1;
    }
    let ghost ts = node@.tool_executions;
    let mut k: usize = 0;
    while k < node.tool_executions.len()
        invariant
            k <= node.tool_executions.len(),
            ts == node@.tool_executions,
            ts == models::tool_models(node.tool_executions@),
            id == node@.interaction.id,
            forall|i: int|
                0 <= i < node@.context_items.len() ==> valid_context(
                    #[trigger] node@.context_items[i],
                    id,
                ),
            forall|i: int| 0 <= i < k ==> (#[trigger] ts[i]).interaction_id == id,
            node@.interaction.conversation_id.len() > 0,
            text::byte_len(node@.interaction.conversation_id) <= 256,
            node@.interaction.source_request_id matches Some(s) ==> text::byte_len(s) <= 256,
        decreases node.tool_executions.len() - k,
    {
        assert(ts[k as int] == node.tool_executions@[k as int]@);
        if node.tool_executions[k].interaction_id != node.interaction.id {
            assert(node@.tool_executions[k as int].interaction_id != id);
            return Err(SyncError::InvalidToolItem);
        }
        k += 1;
    }
    validate_legacy_links(node)
}

/// Two statements about the same link contradict each other: the types differ,
/// or both name who made it and the names differ.
pub open spec fn links_conflict(
    type1: Seq<char>,
    by1: Option<Seq<char>>,
    type2: Seq<char>,
    by2: Option<Seq<char>>,
) -> bool {
    type1 != type2 || (by1 is Some && by2 is Some && by1 != by2)
}

fn conflicting(type1: &str, by1: &Option<String>, type2: &str, by2: &Option<String>) -> (r: bool)
    ensures
        r == links_conflict(type1@, models::opt_text(*by1), type2@, models::opt_text(*by2)),
{
    if !text_equal(type1, type2) {
        return true;
    }
    match (by1, by2) {
        (Some(a), Some(b)) => *a != *b,
        _ => false,
    }
}

/// The first record of a link among the first `n`, from position `k` on.
pub open spec fn find_record(
    records: Seq<LinkRecordModel>,
    record: LinkRecordModel,
    k: int,
    n: int,
) -> Option<LinkRecordModel>
    decreases n - k,
{
    if k < 0 || k >= n || k >= records.len() {
        None
    } else if records[k].interaction_id == record.interaction_id && records[k].git_commit_hash
        == record.git_commit_hash {
        Some(records[k])
    } else {
        find_record(records, record, k + 1, n)
    }
}

/// The first node of an interaction, from position `k` on.
pub open spec fn find_node(nodes: Seq<NodeModel>, id: InteractionId, k: int) -> Option<NodeModel>
    decreases nodes.len() - k,
{
    if k < 0 || k >= nodes.len() {
        None
    } else if nodes[k].interaction.id == id {
        Some(nodes[k])
    } else {
        find_node(nodes, id, k + 1)
    }
}

/// A link to the commit of the record that contradicts it.
pub open spec fn contradicts(link: LinkModel, record: LinkRecordModel) -> bool {
    &&& link.git_commit_hash == record.git_commit_hash
    &&& links_conflict(link.link_type, link.linked_by, record.link_type, record.linked_by)
}

/// What is wrong with the record at position `i`.
pub open spec fn record_fault(
    records: Seq<LinkRecordModel>,
    i: int,
    known: Set<Seq<char>>,
    stored: Seq<LinkModel>,
    incoming: Seq<NodeModel>,
) -> Option<SyncError> {
    let record = records[i];
    match models::parsed_uuid(record.interaction_id) {
        None => Some(SyncError::InvalidLinkInteraction),
        Some(v) => {
            let id = InteractionId { value: v };
            if !known.contains(record.interaction_id) {
                Some(SyncError::LinkMissingInteraction)
            } else if find_record(records, record, 0, i) matches Some(first) && links_conflict(
                first.link_type,
                first.linked_by,
                record.link_type,
                record.linked_by,
            ) {
                Some(SyncError::ConflictingLinkEvent)
            } else if exists|k: int|
                0 <= k < stored.len() && (#[trigger] stored[k]).interaction_id == id && contradicts(
                    stored[k],
                    record,
                ) {
                Some(SyncError::LinkConflictsLocal)
            } else if find_node(incoming, id, 0) matches Some(node) && exists|k: int|
                0 <= k < node.artifact_links.len() && contradicts(
                    #[trigger] node.artifact_links[k],
                    record,
                ) {
                Some(SyncError::LinkConflictsEmbedded)
            } else {
                None
            }
        },
    }
}

/// What is wrong with the first faulty record from position `i` on.
pub open spec fn records_fault(
    records: Seq<LinkRecordModel>,
    i: int,
    known: Set<Seq<char>>,
    stored: Seq<LinkModel>,
    incoming: Seq<NodeModel>,
) -> Option<SyncError>
    decreases records.len() - i,
{
    if i < 0 || i >= records.len() {
        None
    } else {
        match record_fault(records, i, known, stored, incoming) {
            Some(f) => Some(f),
            None => records_fault(records, i + 1, known, stored, incoming),
        }
    }
}

/// The contents of a list of nodes.
pub open spec fn node_models(nodes: Seq<SyncNode>) -> Seq<NodeModel> {
    nodes.map_values(|n: SyncNode| n@)
}

fn earlier_record_conflicts(records: &Vec<SyncLinkRecord>, i: usize) -> (r: bool)
    requires
        i < records@.len(),
    ensures
        r == (find_record(
            tree::link_record_models(records@),
            tree::link_record_models(records@)[i as int],
            0,
            i as int,
        ) matches Some(first) && links_conflict(
            first.link_type,
            first.linked_by,
            tree::link_record_models(records@)[i as int].link_type,
            tree::link_record_models(records@)[i as int].linked_by,
        )),
{
    let ghost s = tree::link_record_models(records@);
    let record = &records[i];
    assert(s[i as int] == record@);
    let mut k: usize = 0;
    while k < i
        invariant
            k <= i < records@.len(),
            s == tree::link_record_models(records@),
            s[i as int] == record@,
            find_record(s, s[i as int], 0, i as int) == find_record(
                s,
                s[i as int],
                k as int,
                i as int,
            ),
        decreases i - k,
    {
        let other = &records[k];
        assert(s[k as int] == other@);
        if other.interaction_id == record.interaction_id && other.git_commit_hash
            == record.git_commit_hash {
            return conflicting(
                other.link_type.as_str(),
                &other.linked_by,
                record.link_type.as_str(),
                &record.linked_by,
            );
        }
        k += 1;
    }
    false
}

fn link_contradicts(link: &ArtifactLink, record: &SyncLinkRecord) -> (r: bool)
    ensures
        r == contradicts(link@, record@),
{
    text_equal(link.git_commit_hash.as_str(), record.git_commit_hash.as_str()) && conflicting(
        link.link_type.as_str(),
        &link.linked_by,
        record.link_type.as_str(),
        &record.linked_by,
    )
}

fn stored_contradicts(stored: &Vec<ArtifactLink>, id: &InteractionId, record: &SyncLinkRecord) -> (r:
    bool)
    ensures
        r == exists|k: int|
            0 <= k < models::link_models(stored@).len() && (#[trigger] models::link_models(
                stored@,
            )[k]).interaction_id == *id && contradicts(models::link_models(stored@)[k], record@),
{
    let ghost s = models::link_models(stored@);
    let mut k: usize = 0;
    while k < stored.len()
        invariant
            k <= stored.len(),
            s == models::link_models(stored@),
            forall|j: int|
                0 <= j < k ==> !((#[trigger] s[j]).interaction_id == *id && contradicts(
                    s[j],
                    record@,
                )),
        decreases stored.len() - k,
    {
        assert(s[k as int] == stored@[k as int]@);
        if stored[k].interaction_id == *id && link_contradicts(&stored[k], record) {
            return true;
        }
        k += 1;
    }
    false
}

fn embedded_contradicts(incoming: &Vec<SyncNode>, id: &InteractionId, record: &SyncLinkRecord) -> (r:
    bool)
    ensures
        r == (find_node(node_models(incoming@), *id, 0) matches Some(node) && exists|k: int|
            0 <= k < node.artifact_links.len() && contradicts(
                #[trigger] node.artifact_links[k],
                record@,
            )),
{
    let ghost s = node_models(incoming@);
    let mut i: usize = 0;
    while i < incoming.len()
        invariant
            i <= incoming.len(),
            s == node_models(incoming@),
            find_node(s, *id, 0) == find_node(s, *id, i as int),
        decreases incoming.len() - i,
    {
        let node = &incoming[i];
        assert(s[i as int] == node@);
        if node.interaction.id == *id {
            let ghost ls = node@.artifact_links;
            let mut k: usize = 0;
            while k < node.artifact_links.len()
                invariant
                    k <= node.artifact_links.len(),
                    ls == models::link_models(node.artifact_links@),
                    ls == node@.artifact_links,
                    find_node(s, *id, 0) == Some(node@),
                    s == node_models(incoming@),
                    forall|j: int| 0 <= j < k ==> !contradicts(#[trigger] ls[j], record@),
                decreases node.artifact_links.len() - k,
            {
                assert(ls[k as int] == node.artifact_links@[k as int]@);
                if link_contradicts(&node.artifact_links[k], record) {
                    return true;
                }
                k += 1;
            }
            return false;
        }
        i += 1;
    }
    false
}

/// Checks received link records against what is known, what the store holds
/// and what comes with them.
pub fn validate_records_against_store(
    stored: &Vec<ArtifactLink>,
    records: &Vec<SyncLinkRecord>,
    known_interactions: &TextSet,
    incoming_nodes: &Vec<SyncNode>,
) -> (r: Result<(), SyncError>)
    requires
        known_interactions.wf(),
    ensures
        match records_fault(
            tree::link_record_models(records@),
            0,
            known_interactions@,
            models::link_models(stored@),
            node_models(incoming_nodes@),
        ) {
            None => r is Ok,
            Some(f) => r matches Err(e) && e == f,
        },
{
    let ghost rs = tree::link_record_models(records@);
    let ghost ls = models::link_models(stored@);
    let ghost ns = node_models(incoming_nodes@);
    let mut i: usize = 0;
    while i < records.len()
        invariant
            i <= records.len(),
            known_interactions.wf(),
            rs == tree::link_record_models(records@),
            ls == models::link_models(stored@),
            ns == node_models(incoming_nodes@),
            records_fault(rs, 0, known_interactions@, ls, ns) == records_fault(
                rs,
                i as int,
                known_interactions@,
                ls,
                ns,
            ),
        decreases records.len() - i,
    {
        let record = &records[i];
        assert(rs[i as int] == record@);
        let id = match InteractionId::from_str(record.interaction_id.as_str()) {
            Ok(id) => id,
            Err(_) => {
                return Err(SyncError::InvalidLinkInteraction);
            },
        };
        if !known_interactions.contains(record.interaction_id.as_str()) {
            return Err(SyncError::LinkMissingInteraction);
        }
        if earlier_record_conflicts(records, i) {
            return Err(SyncError::ConflictingLinkEvent);
        }
        if stored_contradicts(stored, &id, record) {
            return Err(SyncError::LinkConflictsLocal);
        }
        if embedded_contradicts(incoming_nodes, &id, record) {
            return Err(SyncError::LinkConflictsEmbedded);
        }
        i += 1;
    }
    Ok(())
}

} // verus!
