//! The batch that an accepted import writes: sanitized captures and links, built
//! completely in memory before anything reaches the store.

use crate::capture;
use crate::capture::{Capture, CaptureModel, final_scrub_for_sync, sync_import_capture};
use crate::fault::SyncError;
use crate::models;
use crate::models::{
    ArtifactLink, CaptureSource, CommitSha, Conversation, ConversationModel, InteractionId,
    LinkModel, copy_opt_text,
};
use crate::privacy;
use crate::privacy::{PrivacyError, scrub};
use crate::sync;
use crate::tree;
use crate::tree::{LinkRecordModel, NodeModel, SyncLinkRecord, SyncNode};
use vstd::prelude::*;
use vstd::string::*;

verus! {

/// A batch ready for the store.
pub struct ImportBatch {
    pub captures: Vec<Capture>,
    pub links: Vec<ArtifactLink>,
}

/// The capture may be the import of the node: its texts are guarded, and its
/// conversation goes by a neutral title.
pub open spec fn may_import(node: NodeModel, c: CaptureModel) -> bool {
    &&& c.source == CaptureSource::SyncImport
    &&& c.policy == privacy::no_policy()
    &&& c.conversation == (ConversationModel {
        id: c.interaction.conversation_id,
        title: "Synced Conversation"@,
        created_at: c.interaction.timestamp,
    })
    &&& capture::may_guard(
        node,
        (NodeModel {
            interaction: c.interaction,
            context_items: c.context_items,
            tool_executions: c.tool_executions,
            artifact_links: node.artifact_links,
        }),
    )
}

/// The link may be the other with its attribution cleaned.
pub open spec fn may_clean_link(a: LinkModel, b: LinkModel) -> bool {
    &&& b.interaction_id == a.interaction_id
    &&& b.git_commit_hash == a.git_commit_hash
    &&& b.link_type == a.link_type
    &&& match a.linked_by {
        None => b.linked_by is None,
        Some(by) => b.linked_by is Some && privacy::may_scrub(by, Ok(b.linked_by->0)),
    }
}

/// Cleaning the attribution of the link may fail.
pub open spec fn link_may_fail(a: LinkModel) -> bool {
    a.linked_by matches Some(by) && exists|e: PrivacyError| #[trigger]
        privacy::may_scrub(by, Err(e))
}

/// The links inside the first `k` nodes.
pub open spec fn embedded_links(nodes: Seq<NodeModel>, k: nat) -> Seq<LinkModel>
    decreases k,
{
    if k == 0 {
        Seq::empty()
    } else {
        embedded_links(nodes, (k - 1) as nat) + nodes[k - 1].artifact_links
    }
}

/// The link that a record stands for.
pub open spec fn record_link(record: LinkRecordModel) -> LinkModel {
    LinkModel {
        interaction_id: InteractionId { value: models::parsed_uuid(record.interaction_id)->0 },
        git_commit_hash: record.git_commit_hash,
        link_type: record.link_type,
        linked_by: record.linked_by,
    }
}

/// The links that an import writes, before their attribution is cleaned: those
/// inside the nodes, then those of the records.
pub open spec fn imported_links(nodes: Seq<NodeModel>, records: Seq<LinkRecordModel>) -> Seq<
    LinkModel,
> {
    embedded_links(nodes, nodes.len()) + records.map_values(|r: LinkRecordModel| record_link(r))
}

/// Each link may be the one in its place with its attribution cleaned.
pub open spec fn may_clean_links(a: Seq<LinkModel>, b: Seq<LinkModel>) -> bool {
    &&& a.len() == b.len()
    &&& forall|i: int| 0 <= i < a.len() ==> may_clean_link(#[trigger] a[i], b[i])
}

fn clean_link(link: &ArtifactLink) -> (r: Option<ArtifactLink>)
    ensures
        match r {
            Some(clean) => may_clean_link(link@, clean@),
            None => link_may_fail(link@),
        },
{
    let linked_by = match &link.linked_by {
        None => None,
        Some(by) => match scrub(by.as_str()) {
            Ok(clean) => Some(clean),
            Err(e) => {
                assert(link@.linked_by == Some(by@));
                assert(privacy::may_scrub(link@.linked_by->0, Err(e)));
                return None;
            },
        },
    };
    Some(
        ArtifactLink {
            interaction_id: link.interaction_id,
            git_commit_hash: link.git_commit_hash.clone(),
            link_type: link.link_type.clone(),
            linked_by,
        },
    )
}

fn add_clean_links(list: &Vec<ArtifactLink>, out: &mut Vec<ArtifactLink>, Ghost(done): Ghost<Seq<LinkModel>>) -> (r: bool)
    requires
        may_clean_links(done, models::link_models(old(out)@)),
    ensures
        r ==> may_clean_links(
            done + models::link_models(list@),
            models::link_models(final(out)@),
        ),
        !r ==> exists|i: int|
            0 <= i < list@.len() && link_may_fail(#[trigger] models::link_models(list@)[i]),
{
    let ghost all = models::link_models(list@);
    let n: usize = list.len();
    let mut i: usize = 0;
    assert(done + all.take(0) =~= done);
    while i < n
        invariant
            i <= n,
            n == list@.len(),
            all == models::link_models(list@),
            may_clean_links(done + all.take(i as int), models::link_models(out@)),
        decreases n - i,
    {
        assert(all[i as int] == list@[i as int]@);
        let ghost held = models::link_models(out@);
        let ghost before = done + all.take(i as int);
        match clean_link(&list[i]) {
            None => {
                assert(link_may_fail(all[i as int]));
                return false;
            },
            Some(clean) => {
                out.push(clean);
                assert(models::link_models(out@) =~= held.push(clean@));
                assert(done + all.take(i + 1) =~= before.push(all[i as int]));
            },
        }
        i += 1;
    }
    assert(all.take(n as int) =~= all);
    true
}

/// Builds the batch of an accepted import. Remote history can predate the
/// sanitizing of captures, so every text is cleaned before its first local write.
pub fn import_batch(nodes: &Vec<SyncNode>, records: &Vec<SyncLinkRecord>) -> (r: Result<
    ImportBatch,
    SyncError,
>)
    ensures
        ({
            let ns = sync::node_models(nodes@);
            let rs = tree::link_record_models(records@);
            match r {
                Ok(b) => {
                    &&& b.captures@.len() == ns.len()
                    &&& forall|i: int|
                        0 <= i < ns.len() ==> may_import(#[trigger] ns[i], b.captures@[i]@)
                    &&& forall|i: int|
                        0 <= i < rs.len() ==> models::parsed_uuid(
                            (#[trigger] rs[i]).interaction_id,
                        ) is Some
                    &&& may_clean_links(imported_links(ns, rs), models::link_models(b.links@))
                },
                Err(SyncError::UnsafeNodeImport) => exists|i: int, e: PrivacyError|
                    0 <= i < ns.len() && #[trigger] capture::guard_may_fail(ns[i], e),
                Err(SyncError::InvalidLinkInteraction) => exists|i: int|
                    0 <= i < rs.len() && models::parsed_uuid(
                        (#[trigger] rs[i]).interaction_id,
                    ) is None,
                Err(SyncError::UnsafeLinkedBy) => {
                    ||| exists|i: int, j: int|
                        0 <= i < ns.len() && 0 <= j < ns[i].artifact_links.len() && link_may_fail(
                            #[trigger] ns[i].artifact_links[j],
                        )
                    ||| exists|i: int| 0 <= i < rs.len() && link_may_fail(#[trigger] record_link(rs[i]))
                },
                Err(_) => false,
            }
        }),
{
    let ghost ns = sync::node_models(nodes@);
    let ghost rs = tree::link_record_models(records@);
    let n: usize = nodes.len();
    let mut captures: Vec<Capture> = Vec::new();
    let mut links: Vec<ArtifactLink> = Vec::new();
    let mut i: usize = 0;
    while i < n
        invariant
            i <= n,
            n == nodes@.len(),
            ns == sync::node_models(nodes@),
            rs == tree::link_record_models(records@),
            captures@.len() == i,
            forall|k: int| 0 <= k < i ==> may_import(#[trigger] ns[k], captures@[k]@),
            may_clean_links(embedded_links(ns, i as nat), models::link_models(links@)),
        decreases n - i,
    {
        assert(ns[i as int] == nodes@[i as int]@);
        let node = match final_scrub_for_sync(&nodes[i]) {
            Err(e) => {
                assert(capture::guard_may_fail(ns[i as int], e));
                return Err(SyncError::UnsafeNodeImport);
            },
            Ok(node) => node,
        };
        assert(models::link_models(node.artifact_links@) == ns[i as int].artifact_links);
        if !add_clean_links(
            &node.artifact_links,
            &mut links,
            Ghost(embedded_links(ns, i as nat)),
        ) {
            proof {
                let all = models::link_models(node.artifact_links@);
                let j = choose|j: int| 0 <= j < all.len() && link_may_fail(#[trigger] all[j]);
                assert(link_may_fail(ns[i as int].artifact_links[j]));
            }
            return Err(SyncError::UnsafeLinkedBy);
        }
        let conversation = Conversation {
            id: node.interaction.conversation_id.clone(),
            title: "Synced Conversation".to_owned(),
            created_at: node.interaction.timestamp,
        };
        let capture = sync_import_capture(
            conversation,
            node.interaction,
            node.context_items,
            node.tool_executions,
        );
        assert(may_import(ns[i as int], capture@));
        captures.push(capture);
        i += 1;
    }
    let ghost inside = embedded_links(ns, n as nat);
    let ghost wanted = rs.map_values(|r: LinkRecordModel| record_link(r));
    let m: usize = records.len();
    let mut k: usize = 0;
    assert(inside + wanted.take(0) =~= inside);
    while k < m
        invariant
            k <= m,
            m == records@.len(),
            rs == tree::link_record_models(records@),
            ns == sync::node_models(nodes@),
            wanted == rs.map_values(|r: LinkRecordModel| record_link(r)),
            forall|q: int|
                0 <= q < k ==> models::parsed_uuid((#[trigger] rs[q]).interaction_id) is Some,
            may_clean_links(inside + wanted.take(k as int), models::link_models(links@)),
        decreases m - k,
    {
        let record = &records[k];
        assert(rs[k as int] == record@);
        let id = match InteractionId::from_str(record.interaction_id.as_str()) {
            Err(_) => {
                assert(models::parsed_uuid(rs[k as int].interaction_id) is None);
                return Err(SyncError::InvalidLinkInteraction);
            },
            Ok(id) => id,
        };
        let link = ArtifactLink {
            interaction_id: id,
            git_commit_hash: CommitSha::new(record.git_commit_hash.clone()),
            link_type: record.link_type.clone(),
            linked_by: copy_opt_text(&record.linked_by),
        };
        assert(link@ == record_link(rs[k as int]));
        let ghost held = models::link_models(links@);
        let ghost before = inside + wanted.take(k as int);
        match clean_link(&link) {
            None => {
                assert(link_may_fail(record_link(rs[k as int])));
                return Err(SyncError::UnsafeLinkedBy);
            },
            Some(clean) => {
                links.push(clean);
                assert(models::link_models(links@) =~= held.push(clean@));
                assert(inside + wanted.take(k + 1) =~= before.push(wanted[k as int]));
            },
        }
        k += 1;
    }
    assert(wanted.take(m as int) =~= wanted);
    Ok(ImportBatch { captures, links })
}

} // verus!
