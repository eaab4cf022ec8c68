use cvc_core::batch::import_batch;
use cvc_core::fault::SyncError;
use cvc_core::import::{accept_snapshot, read_format, Snapshot};
use cvc_core::changeset::identify;
use cvc_core::derivation::source_id;
use cvc_core::models::{
    ArtifactLink, Author, CommitSha, DerivationEvent, DerivationOrigin, DerivationRelation,
    Evidence, EvidenceKind, Interaction, InteractionId, RangeEvidence, RedactionPlan,
    RedactionPlanFields, Timestamp, Tombstone, TombstoneReasonCode,
};
use cvc_core::outbound::{guard_node, inspect_final_strings, safe_link};
use cvc_core::projection::{
    needs_link, needs_node, project, seed_projection, LocalLink, LocalNode, LocalProjection,
    LocalRecord,
};
use cvc_core::redaction::{
    build_hard_redaction, check_baseline_ref, count_tree_entries, redaction_plan,
    validate_redaction_replacement, verify_redaction_plan, Replacement,
};
use cvc_core::squash::{range_evidence, repository_identity, RangeFacts};
use cvc_core::sync::{
    candidate_ref, check_candidate_ref, redaction_candidate_ref, validate_ref_name,
    validate_remote_node,
};
use cvc_core::tree::{
    add_sync_bytes, NodeBlob, SyncNode, SyncReadLimits, TreeEntry, TreeObject,
};

const FIRST: &str = "11111111-1111-4111-8111-111111111111";
const SECOND: &str = "22222222-2222-4222-8222-222222222222";

fn id(text: &str) -> InteractionId {
    InteractionId::from_str(text).expect("id")
}

fn commit() -> String {
    "d".repeat(40)
}

fn node(text: &str, parent: Option<&str>) -> SyncNode {
    SyncNode {
        interaction: Interaction {
            id: id(text),
            conversation_id: "c1".into(),
            parent_id: parent.map(id),
            timestamp: Timestamp { seconds: 5, nanos: 0 },
            author: Author::Human,
            user_prompt: "hello".into(),
            model_name: None,
            model_cot: None,
            model_response: None,
            source_request_id: None,
        },
        context_items: vec![],
        tool_executions: vec![],
        artifact_links: vec![],
    }
}

fn local_node(text: &str, parent: Option<&str>) -> LocalNode {
    let safe = guard_node(&node(text, parent)).expect("safe");
    LocalNode {
        id: id(text),
        blob: Some(NodeBlob {
            body: format!("{{\"id\":\"{text}\"}}").into_bytes(),
            node: Some(safe),
        }),
    }
}

fn link(text: &str) -> ArtifactLink {
    ArtifactLink {
        interaction_id: id(text),
        git_commit_hash: CommitSha::new(commit()),
        link_type: "generated".into(),
        linked_by: None,
    }
}

fn local_link(text: &str) -> LocalLink {
    let record = safe_link(&link(text)).expect("safe");
    LocalLink {
        intended: record.clone(),
        body: b"{\"k\":\"v\"}".to_vec(),
        record: Some(record),
    }
}

fn nothing() -> LocalProjection {
    LocalProjection {
        nodes: vec![],
        tombstones: vec![],
        links: vec![],
        events: vec![],
        ranges: vec![],
    }
}

fn published() -> Snapshot {
    let seed = seed_projection(None, &vec![]).expect("seed");
    assert!(needs_node(&seed, &id(FIRST)));
    assert!(needs_link(&seed, &id(FIRST), &commit()));
    let local = LocalProjection {
        nodes: vec![local_node(FIRST, Some(SECOND)), local_node(SECOND, None)],
        links: vec![local_link(FIRST)],
        ..nothing()
    };
    assert!(!local.is_empty());
    project(seed, &local).expect("projected")
}

fn tombstone(text: &str) -> Tombstone {
    let now = Timestamp { seconds: 9, nanos: 5 };
    Tombstone::new(id(text), TombstoneReasonCode::UserRequested, None, now)
}

fn suppressed() -> Snapshot {
    let seed = seed_projection(Some(published()), &vec![id(FIRST)]).expect("seed");
    let local = LocalProjection {
        tombstones: vec![LocalRecord {
            record: tombstone(FIRST),
            body: b"{\"t\":1}".to_vec(),
        }],
        ..nothing()
    };
    project(seed, &local).expect("projected")
}

#[test]
fn what_is_projected_is_read_back() {
    let snap = published();
    assert_eq!(snap.format.as_deref(), Some(b"5".as_slice()));
    assert!(!needs_node(&snap, &id(FIRST)));
    assert!(!needs_link(&snap, &id(FIRST), &commit()));
    let got =
        accept_snapshot(&snap, &vec![], &vec![], SyncReadLimits::default()).expect("accepted");
    let ids: Vec<String> = got.nodes.iter().map(|n| n.interaction.id.as_str()).collect();
    assert_eq!(ids, vec![SECOND.to_owned(), FIRST.to_owned()]);
    assert_eq!(got.records.len(), 1);
    assert_eq!(got.records[0].git_commit_hash, commit());
    assert_eq!(got.published.len(), 2);
    let batch = import_batch(&got.nodes, &got.records).expect("batch");
    assert_eq!(batch.captures.len(), 2);
    assert_eq!(batch.links.len(), 1);
}

fn rewritten() -> DerivationEvent {
    let new = CommitSha::new("e".repeat(40));
    let mut event = DerivationEvent {
        event_id: String::new(),
        interaction_id: id(FIRST),
        target_commit: new.clone(),
        relation: DerivationRelation::RewriteExact,
        evidence: Evidence {
            version: 1,
            kind: EvidenceKind::LocallyObserved,
        },
        origin: DerivationOrigin::LocalHook,
        source_event_ids: vec![source_id(&id(FIRST), &commit())],
        old_oid: Some(CommitSha::new(commit())),
        new_oid: Some(new),
        range_id: None,
        linked_by: None,
    };
    event.event_id = event.canonical_id();
    event
}

fn range() -> RangeEvidence {
    let facts = RangeFacts {
        repository_identity: repository_identity(b"/repo/.git"),
        base: "1".repeat(40),
        tip: "2".repeat(40),
        base_tree: "3".repeat(40),
        tip_tree: "4".repeat(40),
        commits: vec!["2".repeat(40)],
    };
    range_evidence(&facts, &identify(&vec![]).expect("no change"))
}

#[test]
fn projected_events_and_ranges_are_read_back() {
    let local = || LocalProjection {
        events: vec![LocalRecord {
            record: rewritten(),
            body: b"event".to_vec(),
        }],
        ranges: vec![LocalRecord {
            record: range(),
            body: b"range".to_vec(),
        }],
        ..nothing()
    };
    let snap = project(published(), &local()).expect("projected");
    let events = &snap.events.as_ref().expect("events").shards;
    assert_eq!(events[0].name, rewritten().event_id[..2]);
    assert_eq!(events[0].leaves[0].body, b"event");
    let got =
        accept_snapshot(&snap, &vec![], &vec![], SyncReadLimits::default()).expect("accepted");
    assert_eq!(got.events.len(), 1);
    assert_eq!(got.events[0].event_id, rewritten().event_id);
    assert_eq!(got.ranges.len(), 1);
    assert_eq!(got.ranges[0].range_id, range().range_id);

    let fallen = LocalProjection {
        tombstones: vec![LocalRecord {
            record: tombstone(FIRST),
            body: b"{}".to_vec(),
        }],
        ..local()
    };
    let seed = seed_projection(Some(snap), &vec![id(FIRST)]).expect("seed");
    let snap = project(seed, &fallen).expect("projected");
    assert!(needs_node(&snap, &id(FIRST)));
    let got =
        accept_snapshot(&snap, &vec![], &vec![], SyncReadLimits::default()).expect("accepted");
    assert!(got.events.is_empty());
    assert_eq!(got.tombstones.len(), 1);
    assert_eq!(got.ranges.len(), 1);
}

#[test]
fn the_index_lists_every_linked_commit() {
    let snap = published();
    let index = snap.by_commit.expect("index");
    assert_eq!(index.shards.len(), 1);
    assert_eq!(index.shards[0].name, commit());
    let names: Vec<&str> = index.shards[0].leaves.iter().map(|l| l.name.as_str()).collect();
    assert_eq!(names, vec![FIRST]);
}

#[test]
fn known_interactions_are_not_imported_again() {
    let got = accept_snapshot(
        &published(),
        &vec![id(SECOND)],
        &vec![],
        SyncReadLimits::default(),
    )
    .expect("accepted");
    assert_eq!(got.nodes.len(), 1);
    assert_eq!(got.nodes[0].interaction.id, id(FIRST));
}

#[test]
fn suppressed_interactions_leave_the_tree() {
    let held = published();
    assert_eq!(held.links.as_ref().expect("links").shards.len(), 1);
    assert_eq!(held.by_commit.as_ref().expect("index").shards.len(), 1);
    let snap = suppressed();
    assert!(snap.links.iter().all(|n| n.shards.iter().all(|s| s.name != FIRST)));
    assert!(snap
        .by_commit
        .iter()
        .all(|n| n.shards.iter().all(|s| s.leaves.iter().all(|l| l.name != FIRST))));
    let got =
        accept_snapshot(&snap, &vec![], &vec![], SyncReadLimits::default()).expect("accepted");
    assert_eq!(got.nodes.len(), 1);
    assert_eq!(got.nodes[0].interaction.id, id(SECOND));
    assert!(got.records.is_empty());
    assert_eq!(got.tombstones.len(), 1);
    assert_eq!(got.tombstones[0].interaction_id, id(FIRST));
    assert_eq!(got.tombstones[0].deleted_at, Timestamp { seconds: 9, nanos: 0 });
}

#[test]
fn unreadable_trees_are_refused() {
    let refused = |snap: &Snapshot| {
        accept_snapshot(snap, &vec![], &vec![], SyncReadLimits::default())
            .err()
            .expect("refused")
    };
    let mut snap = published();
    snap.format = Some(b"x".to_vec());
    assert_eq!(refused(&snap), SyncError::FormatNotNumeric);
    snap.format = Some(b"\xff".to_vec());
    assert_eq!(refused(&snap), SyncError::FormatNotUtf8);
    assert_eq!(read_format(&b" 5\n".to_vec()), Ok(5));
    let mut snap = published();
    snap.entries.push(TreeEntry {
        name: Some(format!("{FIRST}.json")),
        object: TreeObject::Blob(NodeBlob { body: vec![], node: None }),
    });
    assert!(accept_snapshot(&snap, &vec![], &vec![], SyncReadLimits::default()).is_err());
    assert_eq!(SyncError::FormatNotUtf8.message().is_empty(), false);
}

#[test]
fn byte_budgets_are_kept() {
    let mut total = 3usize;
    assert!(add_sync_bytes(&mut total, 4, 7).is_ok());
    assert_eq!(total, 7);
    assert!(add_sync_bytes(&mut total, 1, 7).is_err());
    assert!(add_sync_bytes(&mut total, usize::MAX, 7).is_err());
}

#[test]
fn refs_are_confined() {
    assert!(validate_ref_name("refs/cvc/main"));
    assert!(validate_ref_name("refs/remotes/origin/cvc"));
    assert!(!validate_ref_name("refs/heads/main"));
    assert!(!validate_ref_name("refs/cvc/a b"));
    let fresh = candidate_ref();
    assert!(check_candidate_ref(&fresh).is_ok());
    assert_ne!(fresh, candidate_ref());
    assert!(redaction_candidate_ref().starts_with("refs/cvc/candidate-redact-"));
    assert_eq!(check_candidate_ref("refs/cvc/main"), Err(SyncError::InvalidCandidateRef));
    assert!(check_baseline_ref(Some("refs/cvc/main")).is_ok());
    assert_eq!(check_baseline_ref(None), Err(SyncError::BaselineRequired));
    assert_eq!(check_baseline_ref(Some("x")), Err(SyncError::InvalidRedactionRef));
}

#[test]
fn remote_nodes_are_structurally_valid() {
    assert!(validate_remote_node(&node(FIRST, None)).is_ok());
    let mut odd = node(FIRST, None);
    odd.interaction.source_request_id = Some("x".repeat(257));
    assert!(validate_remote_node(&odd).is_err());
}

#[test]
fn final_bytes_hold_no_secret() {
    assert!(inspect_final_strings(&b"{\"a\":\"fine\"}".to_vec()).is_ok());
    assert!(inspect_final_strings(&b"{\"a\":\"password = hunter2hunter2\"}".to_vec()).is_err());
    assert_eq!(inspect_final_strings(&b"{".to_vec()), Err(SyncError::Malformed));
}

#[test]
fn a_redaction_removes_every_trace() {
    let target = id(FIRST);
    assert_eq!(
        build_hard_redaction(published(), &target).err(),
        Some(SyncError::TombstoneRequired)
    );
    let mut baseline = published();
    baseline.tombstones = suppressed().tombstones;
    let done = build_hard_redaction(baseline, &target).expect("redacted");
    assert_eq!(done.removed_nodes, 1);
    assert_eq!(done.removed_by_commit_entries, 1);
    assert_eq!(done.removed_link_entries, 1);
    let retained = count_tree_entries(&done.tree.entries);
    let now = Timestamp { seconds: 50, nanos: 3 };
    let plan = redaction_plan(
        "/repo",
        "e".repeat(64),
        &target,
        "1".repeat(40),
        "2".repeat(40),
        redaction_candidate_ref(),
        &done,
        retained,
        "3".repeat(40),
        now,
    );
    assert_eq!(plan.created_at, Timestamp { seconds: 50, nanos: 0 });
    let replacement = |tree: Snapshot, parents: usize| Replacement {
        parents,
        entries: retained,
        tombstone_oid: "3".repeat(40),
        tree,
    };
    let tip = Some("1".repeat(40));
    let good = replacement(done.tree, 0);
    assert_eq!(verify_redaction_plan(&plan, "/repo", &good, &tip), Ok(true));
    assert_eq!(verify_redaction_plan(&plan, "/repo", &good, &None), Ok(false));
    assert_eq!(
        validate_redaction_replacement(&plan, "/other", &good),
        Err(SyncError::PlanMismatch)
    );
    let merged = replacement(good.tree, 1);
    assert_eq!(
        validate_redaction_replacement(&plan, "/repo", &merged),
        Err(SyncError::NotParentless)
    );
    let held = replacement(published(), 0);
    assert_eq!(
        validate_redaction_replacement(&plan, "/repo", &held),
        Err(SyncError::LostTombstone)
    );
}

#[test]
fn plans_know_their_version() {
    let fields = || RedactionPlanFields {
        destination_fingerprint: "d".into(),
        target_id: id(FIRST),
        expected_remote_tip: None,
        replacement_commit: "r".into(),
        temporary_ref: "t".into(),
        removed_nodes: 1,
        removed_by_commit_entries: 0,
        removed_link_entries: 0,
        unrelated_entries_retained: 0,
        tombstone_oid: "o".into(),
        created_at: Timestamp { seconds: 1, nanos: 0 },
        warning: "w".into(),
    };
    let v1 = RedactionPlan::legacy_v1("repo".into(), fields());
    let v2 = RedactionPlan::v2("repo".into(), fields());
    assert_eq!(v1.version, 1);
    assert_eq!(v2.version, 2);
    assert_eq!(v1.destination_fingerprint(), "d");
    assert!(v1.same(&v1.clone()));
    assert!(!v1.same(&v2));
}

#[test]
fn identities_and_moments_are_read() {
    assert_eq!(id(FIRST).as_str(), FIRST);
    assert!(InteractionId::from_str("nope").is_err());
    assert_ne!(InteractionId::new(), InteractionId::new());
    assert_eq!(InteractionId::new().as_str().len(), 36);
    assert_eq!(
        Timestamp::from_rfc3339("2026-01-02T12:00:00.5+01:00"),
        Ok(Timestamp { seconds: 1767351600, nanos: 500_000_000 })
    );
    assert_eq!(
        Timestamp::from_rfc3339("noon"),
        Err("premature end of input".to_owned())
    );
}
