use cvc_core::batch::import_batch;
use cvc_core::changeset::identify;
use cvc_core::derivation::{link_sources, source_id, validate_closed_derivation_graph};
use cvc_core::fault::SyncError;
use cvc_core::import::{accept_snapshot, Snapshot};
use cvc_core::models::{
    ArtifactLink, Author, CommitSha, ContextItem, DerivationEvent, DerivationOrigin,
    DerivationRelation, Evidence, EvidenceKind, Interaction, InteractionId, RangeEvidence,
    Timestamp, Tombstone, TombstoneReasonCode, ToolExecution, ToolStatus,
};
use cvc_core::outbound::{
    guard_node, inspect_final_strings, safe_link, validate_final_link_bytes,
    validate_final_node_bytes,
};
use cvc_core::projection::{
    project, projected_endpoints, seed_projection, LocalLink, LocalNode, LocalProjection,
    LocalRecord,
};
use cvc_core::redaction::{
    assert_no_redacted_event_reference, build_hard_redaction, count_tree_entries, redaction_plan,
    validate_redaction_replacement, verify_redaction_plan, Replacement,
};
use cvc_core::squash::{range_evidence, repository_identity, RangeFacts};
use cvc_core::sync::{validate_records_against_store, validate_remote_node};
use cvc_core::textset::TextSet;
use cvc_core::tree::{
    add_sync_bytes, collect_derivation_events, collect_interaction_blobs, collect_link_records,
    collect_ranges, collect_tombstones, validate_by_commit_structure, EntryKind, Leaf, Namespace,
    NodeBlob, Shard, SyncLinkRecord, SyncNode, SyncReadLimits, TreeEntry, TreeObject,
    MAX_SYNC_BLOB_BYTES, MAX_SYNC_TOTAL_BYTES,
};

const FIRST: &str = "11111111-1111-4111-8111-111111111111";
const SECOND: &str = "22222222-2222-4222-8222-222222222222";
const MAX: usize = MAX_SYNC_TOTAL_BYTES;

fn id(text: &str) -> InteractionId {
    InteractionId::from_str(text).expect("id")
}

fn commit() -> String {
    "d".repeat(40)
}

fn leaf<T>(name: &str, record: Option<T>) -> Leaf<T> {
    Leaf {
        name: name.to_owned(),
        kind: EntryKind::Blob,
        body: b"{}".to_vec(),
        record,
    }
}

fn shard<T>(name: &str, leaves: Vec<Leaf<T>>) -> Shard<T> {
    Shard {
        name: name.to_owned(),
        kind: EntryKind::Tree,
        leaves,
    }
}

fn namespace<T>(shards: Vec<Shard<T>>) -> Option<Namespace<T>> {
    Some(Namespace {
        kind: EntryKind::Tree,
        shards,
    })
}

fn event(sources: Vec<String>) -> DerivationEvent {
    let mut event = DerivationEvent {
        event_id: String::new(),
        interaction_id: id(FIRST),
        target_commit: CommitSha::new("e".repeat(40)),
        relation: DerivationRelation::RewriteExact,
        evidence: Evidence {
            version: 1,
            kind: EvidenceKind::LocallyObserved,
        },
        origin: DerivationOrigin::LocalHook,
        source_event_ids: sources,
        old_oid: Some(CommitSha::new(commit())),
        new_oid: Some(CommitSha::new("e".repeat(40))),
        range_id: None,
        linked_by: None,
    };
    event.event_id = event.canonical_id();
    event
}

fn rooted() -> DerivationEvent {
    event(vec![source_id(&id(FIRST), &commit())])
}

fn event_leaf(e: &DerivationEvent) -> Leaf<DerivationEvent> {
    leaf(&format!("{}.json", e.event_id), Some(e.clone()))
}

fn event_shard(e: &DerivationEvent) -> Shard<DerivationEvent> {
    shard(&e.event_id[..2], vec![event_leaf(e)])
}

fn range() -> RangeEvidence {
    let facts = RangeFacts {
        repository_identity: repository_identity(b"/repo/.git"),
        base: "1".repeat(40),
        tip: "2".repeat(40),
        base_tree: "3".repeat(40),
        tip_tree: "4".repeat(40),
        commits: vec!["2".repeat(40)],
    };
    range_evidence(&facts, &identify(&vec![]).expect("no change"))
}

fn range_leaf(r: &RangeEvidence) -> Leaf<RangeEvidence> {
    leaf(&format!("{}.json", r.range_id), Some(r.clone()))
}

fn tombstone(text: &str) -> Tombstone {
    let now = Timestamp { seconds: 9, nanos: 0 };
    Tombstone::new(id(text), TombstoneReasonCode::Security, None, now)
}

fn tombstones(text: &str) -> Option<Namespace<Tombstone>> {
    namespace(vec![shard(
        &text[..2],
        vec![leaf(&format!("{text}.json"), Some(tombstone(text)))],
    )])
}

fn record() -> SyncLinkRecord {
    SyncLinkRecord {
        interaction_id: FIRST.into(),
        git_commit_hash: commit(),
        link_type: "generated".into(),
        linked_by: None,
    }
}

fn links(r: SyncLinkRecord) -> Option<Namespace<SyncLinkRecord>> {
    let file = format!("{}.json", commit());
    namespace(vec![shard(FIRST, vec![leaf(&file, Some(r))])])
}

fn node(text: &str) -> SyncNode {
    SyncNode {
        interaction: Interaction {
            id: id(text),
            conversation_id: "c1".into(),
            parent_id: None,
            timestamp: Timestamp { seconds: 5, nanos: 0 },
            author: Author::Human,
            user_prompt: "hello".into(),
            model_name: None,
            model_cot: None,
            model_response: None,
            source_request_id: None,
        },
        context_items: vec![],
        tool_executions: vec![],
        artifact_links: vec![],
    }
}

fn embedded(text: &str, kind: &str) -> ArtifactLink {
    ArtifactLink {
        interaction_id: id(text),
        git_commit_hash: CommitSha::new(commit()),
        link_type: kind.into(),
        linked_by: None,
    }
}

fn context(text: &str) -> ContextItem {
    ContextItem {
        id: None,
        interaction_id: id(text),
        file_path: "src/lib.rs".into(),
        git_blob_sha: None,
        dirty_patch: None,
        start_line: None,
        end_line: None,
    }
}

fn tool(text: &str, arguments: &str) -> ToolExecution {
    ToolExecution {
        id: None,
        interaction_id: id(text),
        tool_protocol: "mcp".into(),
        tool_name: "run".into(),
        arguments: arguments.into(),
        status: ToolStatus::Success,
    }
}

fn blob(n: SyncNode) -> NodeBlob {
    NodeBlob {
        body: b"{}".to_vec(),
        node: Some(n),
    }
}

fn entry(name: &str, b: NodeBlob) -> TreeEntry {
    TreeEntry {
        name: Some(format!("{name}.json")),
        object: TreeObject::Blob(b),
    }
}

/// A legacy tree: interactions at the root, no format marker.
fn flat(nodes: Vec<(&str, NodeBlob)>) -> Snapshot {
    Snapshot {
        format: None,
        entries: nodes.into_iter().map(|(name, b)| entry(name, b)).collect(),
        tombstones: None,
        links: None,
        events: None,
        ranges: None,
        by_commit: None,
    }
}

/// A tree of the current layout.
fn current() -> Snapshot {
    Snapshot {
        format: Some(b"5".to_vec()),
        events: namespace(vec![]),
        ranges: namespace(vec![]),
        ..flat(vec![])
    }
}

fn refused(snap: &Snapshot) -> SyncError {
    accept_snapshot(snap, &vec![], &vec![], SyncReadLimits::default())
        .err()
        .expect("refused")
}

#[test]
fn unreadable_events_are_named() {
    let read = |shards: Vec<Shard<DerivationEvent>>| {
        collect_derivation_events(&namespace(shards), &mut 0, MAX).expect_err("refused")
    };
    let e = rooted();
    let at = e.event_id[..2].to_owned();
    assert_eq!(read(vec![shard("zz", vec![])]), SyncError::InvalidEventShard);
    assert_eq!(
        read(vec![shard(&at, vec![leaf("x.txt", None)])]),
        SyncError::InvalidEventFilename
    );
    let other = if at == "00" { "01" } else { "00" };
    assert_eq!(
        read(vec![shard(other, vec![event_leaf(&e)])]),
        SyncError::EventPathMismatch
    );
    let mut large = event_leaf(&e);
    large.body = vec![b'x'; MAX_SYNC_BLOB_BYTES + 1];
    assert_eq!(read(vec![shard(&at, vec![large])]), SyncError::EventTooLarge);
    let mut absent = event_leaf(&e);
    absent.record = None;
    assert_eq!(read(vec![shard(&at, vec![absent])]), SyncError::Malformed);
    let mut changed = event_leaf(&e);
    changed.record = Some(event(vec![source_id(&id(FIRST), &"a".repeat(40))]));
    assert_eq!(read(vec![shard(&at, vec![changed])]), SyncError::EventBodyMismatch);
    let mut twice = event_leaf(&e);
    twice.body = b"[]".to_vec();
    assert_eq!(
        read(vec![shard(&at, vec![event_leaf(&e), twice])]),
        SyncError::ConflictingEvent
    );
    let mut decoded = 0usize;
    assert_eq!(
        collect_derivation_events(&namespace(vec![event_shard(&e)]), &mut decoded, 1).err(),
        Some(SyncError::TotalTooLarge)
    );
}

#[test]
fn unreadable_ranges_are_named() {
    let read = |shards: Vec<Shard<RangeEvidence>>| {
        collect_ranges(&namespace(shards), &mut 0, MAX).expect_err("refused")
    };
    let r = range();
    let at = r.range_id[..2].to_owned();
    assert_eq!(read(vec![shard("ZZ", vec![])]), SyncError::InvalidRangeShard);
    assert_eq!(
        read(vec![shard(&at, vec![leaf("x.json", None)])]),
        SyncError::InvalidRangeFilename
    );
    let other = if at == "00" { "01" } else { "00" };
    assert_eq!(
        read(vec![shard(other, vec![range_leaf(&r)])]),
        SyncError::RangePathMismatch
    );
    let mut large = range_leaf(&r);
    large.body = vec![b'x'; MAX_SYNC_BLOB_BYTES + 1];
    assert_eq!(read(vec![shard(&at, vec![large])]), SyncError::RangeTooLarge);
    let mut changed = range_leaf(&r);
    changed.record = changed.record.map(|mut x| {
        x.version = 2;
        x
    });
    assert_eq!(read(vec![shard(&at, vec![changed])]), SyncError::RangeBodyMismatch);
    let mut twice = range_leaf(&r);
    twice.body = b"[]".to_vec();
    assert_eq!(
        read(vec![shard(&at, vec![range_leaf(&r), twice])]),
        SyncError::ConflictingRange
    );
}

#[test]
fn unreadable_tombstones_are_named() {
    let read = |ns: Option<Namespace<Tombstone>>| {
        collect_tombstones(&ns, SyncReadLimits::default()).expect_err("refused")
    };
    let one = |at: &str, l: Leaf<Tombstone>| namespace(vec![shard(at, vec![l])]);
    let file = format!("{FIRST}.json");
    let held = || leaf(&file, Some(tombstone(FIRST)));
    let mut ns = tombstones(FIRST).expect("namespace");
    ns.kind = EntryKind::Blob;
    assert_eq!(read(Some(ns)), SyncError::TombstonesNotTree);
    assert_eq!(read(one("zz", held())), SyncError::InvalidTombstoneShard);
    let mut tree = held();
    tree.kind = EntryKind::Tree;
    assert_eq!(read(one("11", tree)), SyncError::InvalidTombstoneEntry);
    assert_eq!(
        read(one("11", leaf(FIRST, None))),
        SyncError::InvalidTombstoneFilename
    );
    assert_eq!(read(one("22", held())), SyncError::TombstoneShardMismatch);
    let mut large = held();
    large.body = vec![b'x'; 16_385];
    assert_eq!(read(one("11", large)), SyncError::TombstoneTooLarge);
    let mut odd = held();
    odd.record = odd.record.map(|mut t| {
        t.version = 2;
        t
    });
    assert_eq!(read(one("11", odd)), SyncError::InvalidTombstone);
    let mut other = held();
    other.record = Some(tombstone(SECOND));
    assert_eq!(read(one("11", other)), SyncError::TombstoneFilenameMismatch);
    let mut later = held();
    later.record = later.record.map(|mut t| {
        t.deleted_at.seconds = 10;
        t
    });
    assert_eq!(
        read(namespace(vec![shard("11", vec![held(), later])])),
        SyncError::ConflictingTombstones
    );
    let none = SyncReadLimits {
        max_tombstones: 0,
        ..SyncReadLimits::default()
    };
    assert_eq!(
        collect_tombstones(&tombstones(FIRST), none).err(),
        Some(SyncError::TooManyTombstones)
    );
}

#[test]
fn unreadable_link_records_are_named() {
    let read = |ns: Option<Namespace<SyncLinkRecord>>| {
        collect_link_records(&ns, &mut 0, MAX).expect_err("refused")
    };
    let file = format!("{}.json", commit());
    let one = |l: Leaf<SyncLinkRecord>| namespace(vec![shard(FIRST, vec![l])]);
    assert_eq!(read(namespace(vec![shard("x", vec![])])), SyncError::InvalidLinksPath);
    assert_eq!(read(one(leaf("x.json", None))), SyncError::InvalidLinksCommit);
    let mut large = leaf(&file, Some(record()));
    large.body = vec![b'x'; MAX_SYNC_BLOB_BYTES + 1];
    assert_eq!(read(one(large)), SyncError::LinkTooLarge);
    let other = SyncLinkRecord {
        link_type: "other".into(),
        ..record()
    };
    assert_eq!(read(links(other)), SyncError::InconsistentLinkRecord);
    let blank = SyncLinkRecord {
        linked_by: Some(String::new()),
        ..record()
    };
    assert_eq!(read(links(blank)), SyncError::InvalidLinkAttribution);
    let mut many = Vec::new();
    for k in 0..20_001u32 {
        let sha = format!("{k:040x}");
        let r = SyncLinkRecord {
            git_commit_hash: sha.clone(),
            ..record()
        };
        many.push(leaf(&format!("{sha}.json"), Some(r)));
    }
    assert_eq!(
        read(namespace(vec![shard(FIRST, many)])),
        SyncError::TooManyLinkEvents
    );
}

#[test]
fn unreadable_indexes_are_named() {
    let read = |ns: Option<Namespace<()>>| validate_by_commit_structure(&ns).err().expect("refused");
    let pointer = |name: &str| Leaf {
        name: name.to_owned(),
        kind: EntryKind::Blob,
        body: vec![],
        record: None,
    };
    let one = |l: Leaf<()>| namespace(vec![shard(&commit(), vec![l])]);
    let not_tree = Some(Namespace {
        kind: EntryKind::Blob,
        shards: vec![],
    });
    assert_eq!(read(not_tree), SyncError::ByCommitNotTree);
    assert_eq!(
        read(namespace(vec![shard("x", vec![])])),
        SyncError::InvalidByCommitCommit
    );
    assert_eq!(read(one(pointer("x"))), SyncError::InvalidByCommitName);
    let simple = FIRST.replace('-', "");
    assert_eq!(read(one(pointer(&simple))), SyncError::InvalidByCommitPointer);
    let mut full = pointer(FIRST);
    full.body = b"x".to_vec();
    assert_eq!(read(one(full)), SyncError::ByCommitBody);
    assert_eq!(
        read(namespace(vec![shard(
            &commit(),
            vec![pointer(FIRST), pointer(FIRST)]
        )])),
        SyncError::DuplicatePointer
    );
    let mut shards = Vec::new();
    for k in 0..=100_000u32 {
        shards.push(shard(&format!("{k:040x}"), vec![pointer(FIRST)]));
    }
    assert_eq!(read(namespace(shards)), SyncError::TooManyPointers);
}

#[test]
fn byte_counts_never_wrap() {
    let mut total = usize::MAX;
    assert_eq!(
        add_sync_bytes(&mut total, 1, usize::MAX).err(),
        Some(SyncError::ByteCountOverflow)
    );
    assert_eq!(
        add_sync_bytes(&mut 1, 1, 1).err(),
        Some(SyncError::TotalTooLarge)
    );
}

#[test]
fn namespaces_belong_to_their_format() {
    let mut snap = current();
    snap.format = Some(b"6".to_vec());
    assert_eq!(refused(&snap), SyncError::UnsupportedFormat);
    snap.format = Some(b"4".to_vec());
    assert_eq!(refused(&snap), SyncError::NamespaceInLegacyFormat);
    let mut snap = current();
    snap.events = None;
    assert_eq!(refused(&snap), SyncError::NamespaceMissing);
    let mut snap = current();
    snap.events = Some(Namespace {
        kind: EntryKind::Blob,
        shards: vec![],
    });
    assert_eq!(refused(&snap), SyncError::NamespaceNotTree);
    let mut snap = current();
    snap.format = Some(b"05".to_vec());
    assert_eq!(refused(&snap), SyncError::InvalidRangesNamespace);
    let mut seed = flat(vec![]);
    seed.events = namespace(vec![]);
    assert_eq!(
        seed_projection(Some(seed), &vec![]).err(),
        Some(SyncError::InvalidEventsNamespace)
    );
}

#[test]
fn unsound_interactions_are_named() {
    let mut nameless = flat(vec![]);
    nameless.entries.push(TreeEntry {
        name: None,
        object: TreeObject::Other,
    });
    assert_eq!(refused(&nameless), SyncError::NonUtf8Path);
    let mut found = Vec::new();
    assert_eq!(
        collect_interaction_blobs(&nameless.entries, 2, &mut found).err(),
        Some(SyncError::NonUtf8Path)
    );
    let bad = flat(vec![("x", blob(node(FIRST)))]);
    assert_eq!(refused(&bad), SyncError::InvalidInteractionId);
    let mut large = blob(node(FIRST));
    large.body = vec![b'x'; MAX_SYNC_BLOB_BYTES + 1];
    assert_eq!(refused(&flat(vec![(FIRST, large)])), SyncError::NodeTooLarge);
    let mut crowded = node(FIRST);
    crowded.artifact_links = (0..257).map(|_| embedded(FIRST, "generated")).collect();
    assert_eq!(
        refused(&flat(vec![(FIRST, blob(crowded))])),
        SyncError::NodeCollections
    );
    assert_eq!(
        refused(&flat(vec![(SECOND, blob(node(FIRST)))])),
        SyncError::NodeFilenameMismatch
    );
    let mut renamed = node(FIRST);
    renamed.interaction.user_prompt = "other".into();
    assert_eq!(
        refused(&flat(vec![(FIRST, blob(node(FIRST))), (FIRST, blob(renamed))])),
        SyncError::ConflictingNodes
    );
    let mut child = node(FIRST);
    child.interaction.parent_id = Some(id(SECOND));
    let mut parent = node(SECOND);
    parent.interaction.parent_id = Some(id(FIRST));
    assert_eq!(
        refused(&flat(vec![(FIRST, blob(child)), (SECOND, blob(parent))])),
        SyncError::DependencyCycle
    );
    let many: Vec<TreeEntry> = (0..10_001u128)
        .map(|k| {
            let name = InteractionId::from_uuid(k).as_str();
            entry(
                &name,
                NodeBlob {
                    body: vec![],
                    node: None,
                },
            )
        })
        .collect();
    let crowd = Snapshot {
        entries: many,
        ..flat(vec![])
    };
    assert_eq!(refused(&crowd), SyncError::TooManyNodes);
}

#[test]
fn collections_are_bounded_in_total() {
    let nodes: Vec<(String, NodeBlob)> = (0..391u128)
        .map(|k| {
            let name = InteractionId::from_uuid(k).as_str();
            let mut n = node(&name);
            n.context_items = (0..256).map(|_| context(&name)).collect();
            (name, blob(n))
        })
        .collect();
    let snap = Snapshot {
        entries: nodes.into_iter().map(|(name, b)| entry(&name, b)).collect(),
        ..flat(vec![])
    };
    assert_eq!(refused(&snap), SyncError::CollectionTotal);
}

#[test]
fn unsound_nodes_are_named() {
    let fault = |n: SyncNode| validate_remote_node(&n).expect_err("refused");
    let mut n = node(FIRST);
    n.interaction.conversation_id = String::new();
    assert_eq!(fault(n), SyncError::InvalidRemoteIdentity);
    let mut n = node(FIRST);
    n.context_items = vec![context(SECOND)];
    assert_eq!(fault(n), SyncError::InvalidContextItem);
    let mut n = node(FIRST);
    n.tool_executions = vec![tool(SECOND, "{}")];
    assert_eq!(fault(n), SyncError::InvalidToolItem);
    let mut n = node(FIRST);
    n.artifact_links = vec![embedded(FIRST, "other")];
    assert_eq!(fault(n), SyncError::InvalidEmbeddedLink);
}

#[test]
fn contradicting_link_records_are_named() {
    let mut known = TextSet::new();
    known.insert(FIRST.to_owned());
    let check = |stored: Vec<ArtifactLink>, records: Vec<SyncLinkRecord>, nodes: Vec<SyncNode>| {
        validate_records_against_store(&stored, &records, &known, &nodes).expect_err("refused")
    };
    let odd = SyncLinkRecord {
        interaction_id: "x".into(),
        ..record()
    };
    assert_eq!(check(vec![], vec![odd], vec![]), SyncError::InvalidLinkInteraction);
    let foreign = SyncLinkRecord {
        interaction_id: SECOND.into(),
        ..record()
    };
    assert_eq!(
        check(vec![], vec![foreign], vec![]),
        SyncError::LinkMissingInteraction
    );
    let other = SyncLinkRecord {
        link_type: "temporal".into(),
        ..record()
    };
    assert_eq!(
        check(vec![], vec![record(), other], vec![]),
        SyncError::ConflictingLinkEvent
    );
    assert_eq!(
        check(vec![embedded(FIRST, "temporal")], vec![record()], vec![]),
        SyncError::LinkConflictsLocal
    );
    let mut n = node(FIRST);
    n.artifact_links = vec![embedded(FIRST, "temporal")];
    assert_eq!(
        check(vec![], vec![record()], vec![n]),
        SyncError::LinkConflictsEmbedded
    );
}

#[test]
fn open_derivation_graphs_are_named() {
    let none = || link_sources(&vec![]);
    let held = || link_sources(&vec![(FIRST.to_owned(), commit())]);
    let e = rooted();
    let fault = |events: Vec<DerivationEvent>, known: bool| {
        let legacy = if known { held() } else { none() };
        validate_closed_derivation_graph(&events, &legacy).expect_err("refused")
    };
    assert_eq!(fault(vec![e.clone(), e.clone()], true), SyncError::DuplicateEventId);
    assert_eq!(fault(vec![event(vec![])], true), SyncError::ExactWithoutSource);
    assert_eq!(fault(vec![e.clone()], false), SyncError::LegacyUnresolved);
    assert_eq!(
        fault(vec![event(vec!["a".repeat(64)])], true),
        SyncError::DanglingSource
    );
    let mut other = event(vec![e.event_id.clone()]);
    other.interaction_id = id(SECOND);
    assert_eq!(fault(vec![e.clone(), other], true), SyncError::CrossInteraction);
    assert_eq!(
        fault(vec![event(vec!["x".into()])], true),
        SyncError::InvalidSourceGrammar
    );
    let mut a = event(vec!["b".repeat(64)]);
    a.event_id = "a".repeat(64);
    let mut b = event(vec!["a".repeat(64)]);
    b.event_id = "b".repeat(64);
    assert_eq!(fault(vec![a, b], true), SyncError::CyclicGraph);
}

#[test]
fn evidence_has_to_fit_the_tree() {
    let tree = || {
        let mut snap = current();
        snap.entries = vec![entry(FIRST, blob(node(FIRST)))];
        snap.links = links(record());
        snap
    };
    assert_eq!(refused(&tree()), SyncError::InconsistentIndex);
    let mut squash = event(vec![source_id(&id(FIRST), &commit())]);
    squash.relation = DerivationRelation::SquashExact;
    squash.old_oid = None;
    squash.new_oid = None;
    squash.range_id = Some(range().range_id);
    squash.event_id = squash.canonical_id();
    let mut snap = tree();
    snap.events = namespace(vec![event_shard(&squash)]);
    assert_eq!(refused(&snap), SyncError::MissingRange);

    let mut generated = event(vec![]);
    generated.relation = DerivationRelation::Generated;
    generated.old_oid = None;
    generated.new_oid = None;
    generated.event_id = generated.canonical_id();
    let mut alone = current();
    alone.events = namespace(vec![event_shard(&generated)]);
    alone.by_commit = namespace(vec![shard(
        generated.target_commit.as_str(),
        vec![Leaf {
            name: FIRST.to_owned(),
            kind: EntryKind::Blob,
            body: vec![],
            record: None,
        }],
    )]);
    assert_eq!(refused(&alone), SyncError::MissingInteraction);
    assert_eq!(
        projected_endpoints(&alone).err(),
        Some(SyncError::EventWithoutNode)
    );
    assert_eq!(
        projected_endpoints(&flat(vec![(SECOND, blob(node(FIRST)))])).err(),
        Some(SyncError::NodeIdentityMismatch)
    );
    let mut stray = node(FIRST);
    stray.artifact_links = vec![embedded(SECOND, "generated")];
    assert_eq!(
        projected_endpoints(&flat(vec![(FIRST, blob(stray))])).err(),
        Some(SyncError::InvalidProjectedLink)
    );
}

fn nothing() -> LocalProjection {
    LocalProjection {
        nodes: vec![],
        tombstones: vec![],
        links: vec![],
        events: vec![],
        ranges: vec![],
    }
}

fn local<T>(record: T) -> LocalRecord<T> {
    LocalRecord {
        record,
        body: b"{}".to_vec(),
    }
}

#[test]
fn projections_are_refused_by_name() {
    let run = |seed: Snapshot, local: LocalProjection| {
        project(seed, &local).err().expect("refused")
    };
    let asked = || LocalNode {
        id: id(FIRST),
        blob: None,
    };
    let missing = LocalProjection {
        nodes: vec![asked()],
        ..nothing()
    };
    assert_eq!(run(current(), missing), SyncError::MissingInteractionRow);
    let held = |name: &str, n: SyncNode| Snapshot {
        entries: vec![entry(name, blob(n))],
        ..current()
    };
    let again = || LocalProjection {
        nodes: vec![asked()],
        ..nothing()
    };
    assert_eq!(
        run(held(FIRST, node(SECOND)), again()),
        SyncError::ImmutableNodeMismatch
    );
    let mut odd = tombstone(FIRST);
    odd.version = 2;
    let invalid = LocalProjection {
        tombstones: vec![local(odd)],
        ..nothing()
    };
    assert_eq!(run(current(), invalid), SyncError::InvalidTombstone);
    let mut later = tombstone(FIRST);
    later.deleted_at.seconds = 10;
    let mut seed = current();
    seed.tombstones = tombstones(FIRST);
    let clash = LocalProjection {
        tombstones: vec![local(later)],
        ..nothing()
    };
    assert_eq!(run(seed, clash), SyncError::TombstoneConflict);
    let mut renamed = rooted();
    renamed.event_id = "a".repeat(64);
    let invalid = LocalProjection {
        events: vec![local(renamed)],
        ..nothing()
    };
    assert_eq!(run(current(), invalid), SyncError::InvalidLocalEvent);
    let mut seed = current();
    seed.events = namespace(vec![event_shard(&rooted())]);
    let clash = LocalProjection {
        events: vec![LocalRecord {
            record: rooted(),
            body: b"[]".to_vec(),
        }],
        ..nothing()
    };
    assert_eq!(run(seed, clash), SyncError::EventConflict);
    let mut renamed = range();
    renamed.range_id = "a".repeat(64);
    let invalid = LocalProjection {
        ranges: vec![local(renamed)],
        ..nothing()
    };
    assert_eq!(run(current(), invalid), SyncError::InvalidLocalRange);
    let mut seed = current();
    let r = range();
    seed.ranges = namespace(vec![shard(&r.range_id[..2], vec![range_leaf(&r)])]);
    let clash = LocalProjection {
        ranges: vec![LocalRecord {
            record: r,
            body: b"[]".to_vec(),
        }],
        ..nothing()
    };
    assert_eq!(run(seed, clash), SyncError::RangeConflict);
    let mut newer = flat(vec![]);
    newer.format = Some(b"6".to_vec());
    assert_eq!(run(newer, nothing()), SyncError::FormatTooNew);
    let mut seed = current();
    seed.links = links(record());
    let clash = LocalProjection {
        links: vec![LocalLink {
            intended: SyncLinkRecord {
                link_type: "temporal".into(),
                ..record()
            },
            body: vec![],
            record: None,
        }],
        ..nothing()
    };
    assert_eq!(run(seed, clash), SyncError::LinkConflict);
}

#[test]
fn final_bytes_are_refused_by_name() {
    let mut large = blob(node(FIRST));
    large.body = vec![b' '; MAX_SYNC_BLOB_BYTES + 1];
    assert_eq!(
        validate_final_node_bytes(&large).err(),
        Some(SyncError::NodeSerializationTooLarge)
    );
    let mut n = node(FIRST);
    n.tool_executions = vec![tool(FIRST, "{\"apiKey\":\"x\"}")];
    assert_eq!(
        validate_final_node_bytes(&blob(n)).err(),
        Some(SyncError::UnsafeToolArguments)
    );
    let wide = vec![b' '; MAX_SYNC_BLOB_BYTES + 1];
    assert_eq!(
        validate_final_link_bytes(&wide, &Some(record())).err(),
        Some(SyncError::LinkSerializationTooLarge)
    );
    let odd = SyncLinkRecord {
        link_type: "other".into(),
        ..record()
    };
    assert_eq!(
        validate_final_link_bytes(&b"{}".to_vec(), &Some(odd)).err(),
        Some(SyncError::InvalidFinalLink)
    );
    assert_eq!(
        inspect_final_strings(&b"{\"a\":\"password = hunter2hunter2\"}".to_vec()).err(),
        Some(SyncError::UnredactedSecret)
    );
    let long = format!("\"{}\"", "x".repeat(cvc_core::privacy::MAX_TEXT + 1));
    assert_eq!(
        inspect_final_strings(&long.into_bytes()).err(),
        Some(SyncError::FinalStringInvalid)
    );
    let huge = "x".repeat(cvc_core::privacy::MAX_TEXT + 1);
    let mut n = node(FIRST);
    n.interaction.user_prompt = huge.clone();
    assert_eq!(guard_node(&n).err(), Some(SyncError::UnsafeNode));
    assert_eq!(
        import_batch(&vec![n], &vec![]).err(),
        Some(SyncError::UnsafeNodeImport)
    );
    let mut link = embedded(FIRST, "generated");
    link.linked_by = Some(huge.clone());
    assert_eq!(safe_link(&link).err(), Some(SyncError::UnsafeLinkEvent));
    let mut n = node(FIRST);
    n.artifact_links = vec![link];
    assert_eq!(guard_node(&n).err(), Some(SyncError::UnsafeLink));
    assert_eq!(
        import_batch(&vec![n], &vec![]).err(),
        Some(SyncError::UnsafeLinkedBy)
    );
}

#[test]
fn redactions_are_refused_by_name() {
    let target = id(FIRST);
    let run = |snap: Snapshot| build_hard_redaction(snap, &target).err().expect("refused");
    assert_eq!(run(flat(vec![])), SyncError::FormatRequired);
    let mut old = current();
    old.format = Some(b"4".to_vec());
    assert_eq!(run(old), SyncError::ExactBaselineRequired);
    let mut other = current();
    other.tombstones = namespace(vec![shard(
        "11",
        vec![leaf(&format!("{FIRST}.json"), Some(tombstone(SECOND)))],
    )]);
    assert_eq!(run(other), SyncError::TombstoneTargetMismatch);
    let with_events = |shards: Vec<Shard<DerivationEvent>>| {
        let mut snap = current();
        snap.tombstones = tombstones(FIRST);
        snap.events = namespace(shards);
        snap
    };
    let mut changed = event_leaf(&rooted());
    changed.record = changed.record.map(|mut e| {
        e.evidence.version = 2;
        e
    });
    assert_eq!(
        run(with_events(vec![shard("00", vec![changed])])),
        SyncError::InvalidBaselineEvent
    );
    let speaks = |shards: Vec<Shard<DerivationEvent>>| {
        assert_no_redacted_event_reference(&namespace(shards), &target).expect_err("refused")
    };
    let mut not_tree = event_shard(&rooted());
    not_tree.kind = EntryKind::Blob;
    assert_eq!(speaks(vec![not_tree]), SyncError::InvalidEventsTree);
    let mut not_blob = event_leaf(&rooted());
    not_blob.kind = EntryKind::Tree;
    assert_eq!(speaks(vec![shard("00", vec![not_blob])]), SyncError::InvalidEventBlob);
    assert_eq!(speaks(vec![event_shard(&rooted())]), SyncError::TargetEventReference);
    let mut dangling = event(vec!["a".repeat(64)]);
    dangling.interaction_id = id(SECOND);
    assert_eq!(
        speaks(vec![event_shard(&dangling)]),
        SyncError::DanglingRedactedSource
    );
}

#[test]
fn replacements_are_held_against_their_plan() {
    let target = id(FIRST);
    let baseline = || {
        let mut snap = current();
        snap.tombstones = tombstones(FIRST);
        snap
    };
    let done = build_hard_redaction(baseline(), &target).expect("redacted");
    let retained = count_tree_entries(&done.tree.entries);
    let plan = redaction_plan(
        "/repo",
        "f".repeat(64),
        &target,
        "tip".into(),
        "commit".into(),
        "refs/cvc/candidate-redact-x".into(),
        &done,
        retained,
        "oid".into(),
        Timestamp { seconds: 1, nanos: 2 },
    );
    let found = |tree: Snapshot, entries: u64, oid: &str| Replacement {
        parents: 0,
        entries,
        tombstone_oid: oid.into(),
        tree,
    };
    let fault = |x: Replacement| {
        validate_redaction_replacement(&plan, "/repo", &x).expect_err("refused")
    };
    assert!(validate_redaction_replacement(&plan, "/repo", &found(baseline(), retained, "oid")).is_ok());
    assert_eq!(
        fault(found(baseline(), retained + 1, "oid")),
        SyncError::EntryCountMismatch
    );
    assert_eq!(
        fault(found(baseline(), retained, "other")),
        SyncError::TombstoneOidMismatch
    );
    let mut other = baseline();
    other.tombstones = namespace(vec![shard(
        "11",
        vec![leaf(&format!("{FIRST}.json"), Some(tombstone(SECOND)))],
    )]);
    assert_eq!(
        fault(found(other, retained, "oid")),
        SyncError::ReplacementTombstoneMismatch
    );
    let mut held = baseline();
    held.entries = vec![entry(FIRST, blob(node(FIRST)))];
    assert_eq!(
        fault(found(held, retained, "oid")),
        SyncError::ReplacementHoldsTarget
    );
    let mut indexed = baseline();
    indexed.by_commit = namespace(vec![shard(
        &commit(),
        vec![Leaf {
            name: FIRST.to_owned(),
            kind: EntryKind::Blob,
            body: vec![],
            record: None,
        }],
    )]);
    assert_eq!(
        fault(found(indexed, retained, "oid")),
        SyncError::ReplacementHoldsIndex
    );
    let mut second = plan.clone();
    second.version = 2;
    assert_eq!(
        verify_redaction_plan(
            &second,
            "/repo",
            &found(baseline(), retained, "oid"),
            &None
        ),
        Err(SyncError::InvalidRedactionPlan)
    );
}
