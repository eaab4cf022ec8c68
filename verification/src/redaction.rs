//! Local hard redaction: a replacement tree without one interaction, the plan
//! that describes it, and the checks on both. Nothing here contacts a remote.

use crate::derivation;
use crate::derivation::source_refers;
use crate::digest;
use crate::digest::{any_hex, hex_digest};
use crate::fault::SyncError;
use crate::import;
use crate::import::{Snapshot, TreeModel, is_five};
use crate::layout;
use crate::layout::{leaf_at, lookup_leaf, node_at, root_at, shard_at};
use crate::models;
use crate::models::{
    DerivationEvent, EventModel, InteractionId, PlanModel, RedactionPlan, RedactionPlanFields,
    Timestamp, Tombstone, TombstoneModel, opt_text_equal,
};
use crate::projection;
use crate::projection::{build_by_commit_tree, file_of, projected_endpoints, shard_of};
use crate::prune;
use crate::prune::prune;
use crate::sync;
use crate::sync::validate_ref_name;
use crate::text::text_equal;
use crate::textset::TextSet;
use crate::tree;
use crate::tree::{
    EntryKind, EntryModel, Leaf, LeafModel, LinkRecordModel, Namespace, NamespaceModel,
    ObjectModel, ShardModel, TreeEntry, TreeObject, validate_by_commit_structure,
    validate_tombstone,
};
use vstd::prelude::*;
use vstd::string::*;
use vstd::utf8::*;

verus! {

/// The number of entries of a tree, those of its subtrees included, among the
/// entries from position `i` on.
pub open spec fn entry_count(entries: Seq<EntryModel>, i: int) -> int
    decreases entries, entries.len() - i,
{
    if i < 0 || i >= entries.len() {
        0
    } else {
        1 + below(entries[i]) + entry_count(entries, i + 1)
    }
}

/// The number of entries below an entry.
pub open spec fn below(e: EntryModel) -> int
    decreases e, 0int,
{
    match e.object {
        ObjectModel::Tree(sub) => entry_count(sub, 0),
        _ => 0,
    }
}

proof fn lemma_entry_count(entries: Seq<EntryModel>, i: int)
    ensures
        entry_count(entries, i) >= 0,
    decreases entries, entries.len() - i,
{
    if 0 <= i < entries.len() {
        lemma_below(entries[i]);
        lemma_entry_count(entries, i + 1);
    }
}

proof fn lemma_below(e: EntryModel)
    ensures
        below(e) >= 0,
    decreases e, 0int,
{
    match e.object {
        ObjectModel::Tree(sub) => {
            lemma_entry_count(sub, 0);
        },
        _ => {},
    }
}

/// Counts the entries of a tree, those of its subtrees included.
pub fn count_tree_entries(entries: &Vec<TreeEntry>) -> (r: u64)
    requires
        entry_count(tree::entry_models(entries@), 0) <= u64::MAX,
    ensures
        r == entry_count(tree::entry_models(entries@), 0),
    decreases entries,
{
    let ghost s = tree::entry_models(entries@);
    let mut total: u64 = 0;
    let mut i: usize = 0;
    while i < entries.len()
        invariant
            i <= entries.len(),
            s == tree::entry_models(entries@),
            entry_count(s, 0) <= u64::MAX,
            entry_count(s, 0) == total + entry_count(s, i as int),
        decreases entries.len() - i,
    {
        assert(s[i as int] == tree::entry_model(entries@[i as int]));
        proof {
            lemma_entry_count(s, i + 1);
            lemma_below(s[i as int]);
        }
        total += 1;
        match &entries[i].object {
            TreeObject::Tree(sub) => {
                assert(s[i as int].object->Tree_0 =~= tree::entry_models(sub@));
                assert(decreases_to!(*entries => entries@[i as int].object->Tree_0)) by {
                    assert(decreases_to!(*entries => entries@));
                    assert(decreases_to!(entries@ => entries@[i as int]));
                }
                total += count_tree_entries(sub);
            },
            _ => {},
        }
        i += 1;
    }
    total
}

/// Checks the name of the ref that a redaction starts from.
pub fn check_baseline_ref(baseline_ref: Option<&str>) -> (r: Result<(), SyncError>)
    ensures
        match baseline_ref {
            None => r == Err::<(), SyncError>(SyncError::BaselineRequired),
            Some(name) => if sync::valid_ref_name(name@) {
                r == Ok::<(), SyncError>(())
            } else {
                r == Err::<(), SyncError>(SyncError::InvalidRedactionRef)
            },
        },
{
    match baseline_ref {
        None => Err(SyncError::BaselineRequired),
        Some(name) => if validate_ref_name(name) {
            Ok(())
        } else {
            Err(SyncError::InvalidRedactionRef)
        },
    }
}

/// The tombstone of an interaction in a tree.
pub open spec fn tombstone_leaf_of(t: TreeModel, id: InteractionId) -> Option<
    LeafModel<TombstoneModel>,
> {
    layout::lookup(t.tombstones, id.text().take(2), projection::node_file(id))
}

/// What is wrong with an entry that should be the tombstone of `id`.
pub open spec fn tombstone_fault(
    leaf: LeafModel<TombstoneModel>,
    id: InteractionId,
    mismatch: SyncError,
) -> Option<SyncError> {
    if leaf.kind != EntryKind::Blob || leaf.record is None {
        Some(SyncError::Malformed)
    } else if !tree::valid_tombstone(leaf.record->0) {
        Some(SyncError::InvalidTombstone)
    } else if leaf.record->0.interaction_id != id {
        Some(mismatch)
    } else {
        None
    }
}

fn check_tombstone(leaf: &Leaf<Tombstone>, id: &InteractionId, mismatch: SyncError) -> (r: Result<
    (),
    SyncError,
>)
    ensures
        match tombstone_fault(leaf@, *id, mismatch) {
            None => r is Ok,
            Some(f) => r matches Err(e) && e == f,
        },
{
    if leaf.kind != EntryKind::Blob {
        return Err(SyncError::Malformed);
    }
    match &leaf.record {
        None => Err(SyncError::Malformed),
        Some(t) => match validate_tombstone(t) {
            Err(f) => Err(f),
            Ok(_) => if t.interaction_id == *id {
                Ok(())
            } else {
                Err(mismatch)
            },
        },
    }
}

/// The interaction is in the tree: as a node, flat or sharded, or with link records.
pub open spec fn holds_target(t: TreeModel, id: InteractionId) -> bool {
    ||| layout::root_object(t.entries, projection::node_file(id)) is Some
    ||| layout::sharded_node(t.entries, id.text().take(2), projection::node_file(id)) is Some
    ||| t.links matches Some(n) && n.kind == EntryKind::Tree && layout::find_shard(
        n.shards,
        id.text(),
        0,
    ) is Some
}

/// The commits whose index holds the interaction, among those from position
/// `k` on.
pub open spec fn pointer_count(shards: Seq<ShardModel<()>>, id: Seq<char>, k: int) -> int
    decreases shards.len() - k,
{
    if k < 0 || k >= shards.len() {
        0
    } else {
        (if shards[k].kind == EntryKind::Tree && layout::find_leaf(shards[k].leaves, id, 0) is Some {
            1int
        } else {
            0int
        }) + pointer_count(shards, id, k + 1)
    }
}

/// The number of pointers to the interaction.
pub open spec fn pointers_to(ns: Option<NamespaceModel<()>>, id: Seq<char>) -> int {
    match ns {
        Some(n) => if n.kind == EntryKind::Tree {
            pointer_count(n.shards, id, 0)
        } else {
            0
        },
        None => 0,
    }
}

fn count_pointers(ns: &Option<Namespace<()>>, id: &str) -> (r: usize)
    ensures
        r == pointers_to(tree::opt_namespace(*ns), id@),
{
    match ns {
        None => 0,
        Some(n) => {
            if n.kind != EntryKind::Tree {
                return 0;
            }
            let ghost ss = tree::shard_models(n.shards@);
            let mut found: usize = 0;
            let mut k: usize = 0;
            while k < n.shards.len()
                invariant
                    k <= n.shards.len(),
                    found <= k,
                    ss == tree::shard_models(n.shards@),
                    pointer_count(ss, id@, 0) == found + pointer_count(ss, id@, k as int),
                decreases n.shards.len() - k,
            {
                assert(ss[k as int] == n.shards@[k as int]@);
                if n.shards[k].kind == EntryKind::Tree && leaf_at(
                    &n.shards[k].leaves,
                    id,
                ).is_some() {
                    found += 1;
                }
                k += 1;
            }
            found
        },
    }
}

fn target_held(snap: &Snapshot, id: &InteractionId) -> (r: bool)
    ensures
        r == holds_target(snap@, *id),
{
    let file = file_of(id);
    let shard = shard_of(id);
    if root_at(&snap.entries, file.as_str()).is_some() {
        return true;
    }
    if node_at(&snap.entries, shard.as_str(), file.as_str()).is_some() {
        return true;
    }
    match &snap.links {
        Some(n) => n.kind == EntryKind::Tree && shard_at(&n.shards, id.as_str().as_str()).is_some(),
        None => false,
    }
}

/// An event that belongs to the interaction or names it among its sources.
pub open spec fn speaks_of(e: EventModel, id: InteractionId) -> bool {
    e.interaction_id == id || exists|j: int|
        0 <= j < e.sources.len() && derivation::refers_to(#[trigger] e.sources[j], id, true)
}

/// Reading the events of a shard from position `i` on; an event that speaks of
/// the interaction stops it.
pub open spec fn clean_leaves(
    leaves: Seq<LeafModel<EventModel>>,
    i: int,
    id: InteractionId,
    out: Seq<EventModel>,
) -> Result<Seq<EventModel>, SyncError>
    decreases leaves.len() - i,
{
    if i < 0 || i >= leaves.len() {
        Ok(out)
    } else if leaves[i].kind != EntryKind::Blob {
        Err(SyncError::InvalidEventBlob)
    } else {
        match leaves[i].record {
            None => Err(SyncError::Malformed),
            Some(e) => if speaks_of(e, id) {
                Err(SyncError::TargetEventReference)
            } else {
                clean_leaves(leaves, i + 1, id, out.push(e))
            },
        }
    }
}

/// Reading the shards of events from position `k` on.
pub open spec fn clean_shards(
    shards: Seq<ShardModel<EventModel>>,
    k: int,
    id: InteractionId,
    out: Seq<EventModel>,
) -> Result<Seq<EventModel>, SyncError>
    decreases shards.len() - k,
{
    if k < 0 || k >= shards.len() {
        Ok(out)
    } else if shards[k].kind != EntryKind::Tree {
        Err(SyncError::InvalidEventsTree)
    } else {
        match clean_leaves(shards[k].leaves, 0, id, out) {
            Err(f) => Err(f),
            Ok(next) => clean_shards(shards, k + 1, id, next),
        }
    }
}

/// Every source that names an event names one of these.
pub open spec fn sources_resolve(events: Seq<EventModel>) -> bool {
    forall|k: int, j: int|
        0 <= k < events.len() && 0 <= j < events[k].sources.len() && digest::is_hex(
            #[trigger] events[k].sources[j],
            64,
        ) ==> derivation::event_ids(events).contains(events[k].sources[j])
}

/// What is wrong with the events of a tree from which the interaction was redacted.
pub open spec fn reference_fault(ns: Option<NamespaceModel<EventModel>>, id: InteractionId) -> Option<
    SyncError,
> {
    match ns {
        None => None,
        Some(n) => if n.kind != EntryKind::Tree {
            None
        } else {
            match clean_shards(n.shards, 0, id, Seq::empty()) {
                Err(f) => Some(f),
                Ok(events) => if sources_resolve(events) {
                    None
                } else {
                    Some(SyncError::DanglingRedactedSource)
                },
            }
        },
    }
}

fn event_speaks_of(e: &DerivationEvent, id: &InteractionId) -> (r: bool)
    ensures
        r == speaks_of(e@, *id),
{
    if e.interaction_id == *id {
        return true;
    }
    let ghost s = e@.sources;
    let mut j: usize = 0;
    while j < e.source_event_ids.len()
        invariant
            j <= e.source_event_ids.len(),
            s == e@.sources,
            s == e.source_event_ids.deep_view(),
            forall|i: int| 0 <= i < j ==> !derivation::refers_to(#[trigger] s[i], *id, true),
        decreases e.source_event_ids.len() - j,
    {
        assert(s[j as int] == e.source_event_ids@[j as int]@);
        if source_refers(e.source_event_ids[j].as_str(), id, true) {
            return true;
        }
        j += 1;
    }
    false
}

fn all_sources_resolve(events: &Vec<DerivationEvent>) -> (r: bool)
    ensures
        r == sources_resolve(derivation::models(events@)),
{
    let ghost es = derivation::models(events@);
    let ghost ids = derivation::event_ids(es);
    let mut known = TextSet::new();
    let mut k: usize = 0;
    while k < events.len()
        invariant
            k <= events.len(),
            known.wf(),
            es == derivation::models(events@),
            ids == derivation::event_ids(es),
            known@ == ids.take(k as int).to_set(),
        decreases events.len() - k,
    {
        assert(es[k as int] == events@[k as int]@);
        known.insert(events[k].event_id.clone());
        proof {
            import::lemma_to_set_push(ids.take(k as int), ids[k as int]);
            assert(ids.take(k + 1) =~= ids.take(k as int).push(ids[k as int]));
        }
        k += 1;
    }
    assert(ids.take(ids.len() as int) =~= ids);
    let mut k: usize = 0;
    while k < events.len()
        invariant
            k <= events.len(),
            known.wf(),
            es == derivation::models(events@),
            ids == derivation::event_ids(es),
            known@ == ids.to_set(),
            forall|a: int, j: int|
                0 <= a < k && 0 <= j < es[a].sources.len() && digest::is_hex(
                    #[trigger] es[a].sources[j],
                    64,
                ) ==> ids.contains(es[a].sources[j]),
        decreases events.len() - k,
    {
        let e = &events[k];
        assert(es[k as int] == e@);
        let ghost s = e@.sources;
        let mut j: usize = 0;
        while j < e.source_event_ids.len()
            invariant
                k < events.len(),
                j <= e.source_event_ids.len(),
                known.wf(),
                es == derivation::models(events@),
                es[k as int] == e@,
                ids == derivation::event_ids(es),
                known@ == ids.to_set(),
                s == e@.sources,
                s == e.source_event_ids.deep_view(),
                forall|i: int|
                    0 <= i < j && digest::is_hex(#[trigger] s[i], 64) ==> ids.contains(s[i]),
            decreases e.source_event_ids.len() - j,
        {
            assert(s[j as int] == e.source_event_ids@[j as int]@);
            let source = e.source_event_ids[j].as_str();
            if any_hex(source, 64) && !known.contains(source) {
                proof {
                    assert(digest::is_hex(es[k as int].sources[j as int], 64));
                    assert(!ids.contains(es[k as int].sources[j as int]));
                }
                return false;
            }
            j += 1;
        }
        k += 1;
    }
    true
}

/// Checks that no event of the tree speaks of the redacted interaction, and
/// that no event has lost a source.
pub fn assert_no_redacted_event_reference(
    ns: &Option<Namespace<DerivationEvent>>,
    target: &InteractionId,
) -> (r: Result<(), SyncError>)
    ensures
        match reference_fault(tree::opt_namespace(*ns), *target) {
            None => r is Ok,
            Some(f) => r matches Err(e) && e == f,
        },
{
    let n = match ns {
        None => {
            return Ok(());
        },
        Some(n) => n,
    };
    if n.kind != EntryKind::Tree {
        return Ok(());
    }
    let ghost ss = tree::shard_models(n.shards@);
    let mut out: Vec<DerivationEvent> = Vec::new();
    assert(derivation::models(out@) =~= Seq::empty());
    let mut k: usize = 0;
    while k < n.shards.len()
        invariant
            k <= n.shards.len(),
            n.kind == EntryKind::Tree,
            tree::opt_namespace(*ns) == Some(n@),
            ss == tree::shard_models(n.shards@),
            clean_shards(ss, 0, *target, Seq::empty()) == clean_shards(
                ss,
                k as int,
                *target,
                derivation::models(out@),
            ),
        decreases n.shards.len() - k,
    {
        let shard = &n.shards[k];
        assert(ss[k as int] == shard@);
        if shard.kind != EntryKind::Tree {
            return Err(SyncError::InvalidEventsTree);
        }
        let ghost start = derivation::models(out@);
        let mut i: usize = 0;
        while i < shard.leaves.len()
            invariant
                k < n.shards.len(),
                i <= shard.leaves.len(),
                n.kind == EntryKind::Tree,
                tree::opt_namespace(*ns) == Some(n@),
                ss == tree::shard_models(n.shards@),
                shard@ == ss[k as int],
                shard.kind == EntryKind::Tree,
                clean_shards(ss, 0, *target, Seq::empty()) == clean_shards(
                    ss,
                    k as int,
                    *target,
                    start,
                ),
                clean_leaves(shard@.leaves, 0, *target, start) == clean_leaves(
                    shard@.leaves,
                    i as int,
                    *target,
                    derivation::models(out@),
                ),
            decreases shard.leaves.len() - i,
        {
            let leaf = &shard.leaves[i];
            assert(shard@.leaves[i as int] == leaf@);
            if leaf.kind != EntryKind::Blob {
                return Err(SyncError::InvalidEventBlob);
            }
            match &leaf.record {
                None => {
                    return Err(SyncError::Malformed);
                },
                Some(e) => {
                    if event_speaks_of(e, target) {
                        return Err(SyncError::TargetEventReference);
                    }
                    let ghost held = derivation::models(out@);
                    out.push(e.clone());
                    assert(derivation::models(out@) =~= held.push(e@));
                },
            }
            i += 1;
        }
        k += 1;
    }
    if all_sources_resolve(&out) {
        Ok(())
    } else {
        Err(SyncError::DanglingRedactedSource)
    }
}

/// The replacement tree and what was taken out of the baseline.
#[verifier::ext_equal]
pub struct RedactedModel {
    pub tree: TreeModel,
    pub removed_nodes: int,
    pub removed_by_commit_entries: int,
    pub removed_link_entries: int,
}

/// The tree without the interaction, its index rebuilt.
pub open spec fn replacement(t: TreeModel, id: InteractionId) -> Result<TreeModel, SyncError> {
    match prune::pruned(t, seq![id]) {
        Err(f) => Err(f),
        Ok(p) => match tree::read_index(p.by_commit) {
            Err(f) => Err(f),
            Ok(_) => match projection::endpoints(p) {
                Err(f) => Err(f),
                Ok(s) => Ok(
                    TreeModel { by_commit: projection::indexed(s.list, s.list.len()), ..p },
                ),
            },
        },
    }
}

/// What still speaks of the interaction in a replacement.
pub open spec fn replacement_fault(t: TreeModel, id: InteractionId) -> Option<SyncError> {
    if holds_target(t, id) {
        Some(SyncError::TargetInReplacement)
    } else if pointers_to(t.by_commit, id.text()) > 0 {
        Some(SyncError::TargetIndexEntry)
    } else {
        reference_fault(t.events, id)
    }
}

/// Redacting one interaction from a baseline. The baseline has to be of the
/// current layout and to hold the tombstone of the interaction, which stays.
pub open spec fn redacted_tree(t: TreeModel, id: InteractionId) -> Result<RedactedModel, SyncError> {
    match t.format {
        None => Err(SyncError::FormatRequired),
        Some(body) => if !import::marks_five(body) {
            Err(SyncError::ExactBaselineRequired)
        } else {
            match tombstone_leaf_of(t, id) {
                None => Err(SyncError::TombstoneRequired),
                Some(leaf) => match tombstone_fault(leaf, id, SyncError::TombstoneTargetMismatch) {
                    Some(f) => Err(f),
                    None => match replacement(t, id) {
                        Err(f) => Err(f),
                        Ok(tree) => match replacement_fault(tree, id) {
                            Some(f) => Err(f),
                            None => Ok(
                                RedactedModel {
                                    tree,
                                    removed_nodes: removed_nodes(t.entries, id),
                                    removed_by_commit_entries: pointers_to(t.by_commit, id.text()),
                                    removed_link_entries: removed_links(t.links, id),
                                },
                            ),
                        },
                    },
                },
            }
        },
    }
}

/// The nodes of the interaction, flat and sharded.
pub open spec fn removed_nodes(entries: Seq<EntryModel>, id: InteractionId) -> int {
    (if layout::root_object(entries, projection::node_file(id)) is Some {
        1int
    } else {
        0int
    }) + (if layout::sharded_node(
        entries,
        id.text().take(2),
        projection::node_file(id),
    ) is Some {
        1int
    } else {
        0int
    })
}

/// One where the interaction has link records.
pub open spec fn removed_links(ns: Option<NamespaceModel<LinkRecordModel>>, id: InteractionId) -> int {
    match ns {
        Some(n) => if n.kind == EntryKind::Tree && layout::find_shard(n.shards, id.text(), 0) is Some {
            1
        } else {
            0
        },
        None => 0,
    }
}

/// The replacement tree and what was taken out of the baseline.
pub struct Redacted {
    pub tree: Snapshot,
    pub removed_nodes: u64,
    pub removed_by_commit_entries: u64,
    pub removed_link_entries: u64,
}

impl View for Redacted {
    type V = RedactedModel;

    open spec fn view(&self) -> RedactedModel {
        RedactedModel {
            tree: self.tree@,
            removed_nodes: self.removed_nodes as int,
            removed_by_commit_entries: self.removed_by_commit_entries as int,
            removed_link_entries: self.removed_link_entries as int,
        }
    }
}

fn replace_tree(snap: Snapshot, target: &InteractionId) -> (r: Result<Snapshot, SyncError>)
    ensures
        match replacement(snap@, *target) {
            Ok(t) => r matches Ok(s) && s@ == t,
            Err(f) => r matches Err(e) && e == f,
        },
{
    let mut ids: Vec<InteractionId> = Vec::new();
    ids.push(*target);
    assert(ids@ =~= seq![*target]);
    let mut snap = match prune(snap, &ids) {
        Ok(snap) => snap,
        Err(f) => {
            return Err(f);
        },
    };
    match validate_by_commit_structure(&snap.by_commit) {
        Ok(_) => {},
        Err(f) => {
            return Err(f);
        },
    }
    let ghost before = snap@;
    match projected_endpoints(&snap) {
        Err(f) => Err(f),
        Ok(found) => {
            snap.by_commit = build_by_commit_tree(&found.list);
            assert(projection::endpoint_models(found.list@).len() == found.list@.len());
            assert(snap@ =~= (TreeModel {
                by_commit: projection::indexed(found@.list, found@.list.len()),
                ..before
            }));
            Ok(snap)
        },
    }
}

/// Builds the replacement of a baseline without one interaction, and checks
/// that every representation a reader understands is gone from it.
pub fn build_hard_redaction(snap: Snapshot, target: &InteractionId) -> (r: Result<
    Redacted,
    SyncError,
>)
    ensures
        match redacted_tree(snap@, *target) {
            Ok(m) => r matches Ok(x) && x@ == m,
            Err(f) => r matches Err(e) && e == f,
        },
{
    match &snap.format {
        None => {
            return Err(SyncError::FormatRequired);
        },
        Some(body) => {
            if !is_five(body) {
                return Err(SyncError::ExactBaselineRequired);
            }
        },
    }
    let file = file_of(target);
    let shard = shard_of(target);
    let verdict: Result<(), SyncError> = match lookup_leaf(
        &snap.tombstones,
        shard.as_str(),
        file.as_str(),
    ) {
        None => Err(SyncError::TombstoneRequired),
        Some(leaf) => check_tombstone(leaf, target, SyncError::TombstoneTargetMismatch),
    };
    match verdict {
        Ok(_) => {},
        Err(f) => {
            return Err(f);
        },
    }
    let id = target.as_str();
    let mut removed_nodes: u64 = 0;
    if root_at(&snap.entries, file.as_str()).is_some() {
        removed_nodes += 1;
    }
    if node_at(&snap.entries, shard.as_str(), file.as_str()).is_some() {
        removed_nodes += 1;
    }
    let removed_by_commit_entries: u64 = count_pointers(&snap.by_commit, id.as_str()) as u64;
    let mut removed_link_entries: u64 = 0;
    match &snap.links {
        Some(n) => {
            if n.kind == EntryKind::Tree && shard_at(&n.shards, id.as_str()).is_some() {
                removed_link_entries = 1;
            }
        },
        None => {},
    }
    let tree = match replace_tree(snap, target) {
        Ok(tree) => tree,
        Err(f) => {
            return Err(f);
        },
    };
    if target_held(&tree, target) {
        return Err(SyncError::TargetInReplacement);
    }
    if count_pointers(&tree.by_commit, id.as_str()) > 0 {
        return Err(SyncError::TargetIndexEntry);
    }
    match assert_no_redacted_event_reference(&tree.events, target) {
        Ok(_) => {},
        Err(f) => {
            return Err(f);
        },
    }
    Ok(Redacted { tree, removed_nodes, removed_by_commit_entries, removed_link_entries })
}

/// The fingerprint of a repository: the digest of its path.
pub fn path_fingerprint(path: &str) -> (r: String)
    ensures
        r@ == digest::digest_text(encode_utf8(path@)),
{
    hex_digest(path.as_bytes())
}

/// The plan that describes a replacement.
pub open spec fn plan_for(
    path: Seq<char>,
    destination: Seq<char>,
    target: InteractionId,
    tip: Seq<char>,
    commit: Seq<char>,
    temporary_ref: Seq<char>,
    m: RedactedModel,
    retained: u64,
    tombstone_oid: Seq<char>,
    now: Timestamp,
) -> PlanModel {
    PlanModel {
        format: "cvc.redaction-plan/v1"@,
        version: 1,
        repository_fingerprint: digest::digest_text(encode_utf8(path)),
        destination_fingerprint: destination,
        target_id: target,
        expected_remote_tip: Some(tip),
        replacement_commit: commit,
        temporary_ref,
        removed_nodes: m.removed_nodes as u64,
        removed_by_commit_entries: m.removed_by_commit_entries as u64,
        removed_link_entries: m.removed_link_entries as u64,
        unrelated_entries_retained: retained,
        tombstone_oid,
        created_at: Timestamp { seconds: now.seconds, nanos: 0 },
        warning: plan_warning(),
    }
}

/// What every plan says of its reach.
pub open spec fn plan_warning() -> Seq<char> {
    "Local planning only. Remote history rewrite is unsupported pending atomic force-with-lease transport."@
}

/// Describes a replacement that was committed.
pub fn redaction_plan(
    path: &str,
    destination: String,
    target: &InteractionId,
    tip: String,
    commit: String,
    temporary_ref: String,
    redacted: &Redacted,
    retained: u64,
    tombstone_oid: String,
    now: Timestamp,
) -> (r: RedactionPlan)
    ensures
        r@ == plan_for(
            path@,
            destination@,
            *target,
            tip@,
            commit@,
            temporary_ref@,
            redacted@,
            retained,
            tombstone_oid@,
            now,
        ),
{
    let common = RedactionPlanFields {
        destination_fingerprint: destination,
        target_id: *target,
        expected_remote_tip: Some(tip),
        replacement_commit: commit,
        temporary_ref,
        removed_nodes: redacted.removed_nodes,
        removed_by_commit_entries: redacted.removed_by_commit_entries,
        removed_link_entries: redacted.removed_link_entries,
        unrelated_entries_retained: retained,
        tombstone_oid,
        created_at: Timestamp { seconds: now.seconds, nanos: 0 },
        warning: "Local planning only. Remote history rewrite is unsupported pending atomic force-with-lease transport.".to_owned(),
    };
    RedactionPlan::legacy_v1(path_fingerprint(path), common)
}

/// What is known of a replacement commit.
pub struct Replacement {
    /// How many parents the commit has.
    pub parents: usize,
    /// How many entries its tree has, those of subtrees included.
    pub entries: u64,
    /// The object name of the target's tombstone, where the tree has one.
    pub tombstone_oid: String,
    pub tree: Snapshot,
}

/// What is wrong with a replacement, held against its plan.
pub open spec fn plan_fault(plan: PlanModel, path: Seq<char>, x: Replacement) -> Option<SyncError> {
    let id = plan.target_id;
    if plan.repository_fingerprint != digest::digest_text(encode_utf8(path)) || !digest::is_hex(
        plan.destination_fingerprint,
        64,
    ) {
        Some(SyncError::PlanMismatch)
    } else if x.parents != 0 {
        Some(SyncError::NotParentless)
    } else if x.entries != plan.unrelated_entries_retained {
        Some(SyncError::EntryCountMismatch)
    } else {
        match tombstone_leaf_of(x.tree@, id) {
            None => Some(SyncError::LostTombstone),
            Some(leaf) => if x.tombstone_oid@ != plan.tombstone_oid {
                Some(SyncError::TombstoneOidMismatch)
            } else {
                match tombstone_fault(leaf, id, SyncError::ReplacementTombstoneMismatch) {
                    Some(f) => Some(f),
                    None => if holds_target(x.tree@, id) {
                        Some(SyncError::ReplacementHoldsTarget)
                    } else if pointers_to(x.tree@.by_commit, id.text()) > 0 {
                        Some(SyncError::ReplacementHoldsIndex)
                    } else {
                        reference_fault(x.tree@.events, id)
                    },
                }
            },
        }
    }
}

/// Checks everything about a plan that can be checked locally, before it is
/// reported current or any ref changes.
pub fn validate_redaction_replacement(plan: &RedactionPlan, path: &str, x: &Replacement) -> (r: Result<
    (),
    SyncError,
>)
    ensures
        match plan_fault(plan@, path@, *x) {
            None => r is Ok,
            Some(f) => r matches Err(e) && e == f,
        },
{
    let fingerprint = path_fingerprint(path);
    if !text_equal(plan.repository_fingerprint.as_str(), fingerprint.as_str()) || !any_hex(
        plan.destination_fingerprint.as_str(),
        64,
    ) {
        return Err(SyncError::PlanMismatch);
    }
    if x.parents != 0 {
        return Err(SyncError::NotParentless);
    }
    if x.entries != plan.unrelated_entries_retained {
        return Err(SyncError::EntryCountMismatch);
    }
    let id = &plan.target_id;
    let leaf = match lookup_leaf(
        &x.tree.tombstones,
        shard_of(id).as_str(),
        file_of(id).as_str(),
    ) {
        None => {
            return Err(SyncError::LostTombstone);
        },
        Some(leaf) => leaf,
    };
    if !text_equal(x.tombstone_oid.as_str(), plan.tombstone_oid.as_str()) {
        return Err(SyncError::TombstoneOidMismatch);
    }
    match check_tombstone(leaf, id, SyncError::ReplacementTombstoneMismatch) {
        Ok(_) => {},
        Err(f) => {
            return Err(f);
        },
    }
    if target_held(&x.tree, id) {
        return Err(SyncError::ReplacementHoldsTarget);
    }
    if count_pointers(&x.tree.by_commit, id.as_str().as_str()) > 0 {
        return Err(SyncError::ReplacementHoldsIndex);
    }
    assert_no_redacted_event_reference(&x.tree.events, id)
}

/// Whether a plan still matches the tip that the remote was last seen at.
pub fn verify_redaction_plan(
    plan: &RedactionPlan,
    path: &str,
    x: &Replacement,
    current_tip: &Option<String>,
) -> (r: Result<bool, SyncError>)
    ensures
        if plan@.format != "cvc.redaction-plan/v1"@ || plan@.version != 1 {
            r == Err::<bool, SyncError>(SyncError::InvalidRedactionPlan)
        } else {
            match plan_fault(plan@, path@, *x) {
                Some(f) => r == Err::<bool, SyncError>(f),
                None => r == Ok::<bool, SyncError>(
                    models::opt_text(*current_tip) == plan@.expected_remote_tip,
                ),
            }
        },
{
    if !text_equal(plan.format.as_str(), "cvc.redaction-plan/v1") || plan.version != 1 {
        return Err(SyncError::InvalidRedactionPlan);
    }
    match validate_redaction_replacement(plan, path, x) {
        Err(f) => Err(f),
        Ok(_) => Ok(opt_text_equal(current_tip, &plan.expected_remote_tip)),
    }
}

proof fn lemma_no_file(entries: Seq<EntryModel>, name: Seq<char>)
    requires
        forall|i: int| 0 <= i < entries.len() ==> (#[trigger] entries[i]).name != Some(name),
    ensures
        layout::root_object(entries, name) is None,
{
    layout::lemma_find_entry(entries, name, 0);
}

proof fn lemma_dead_name(id: InteractionId, dead: Set<Seq<char>>)
    requires
        dead.contains(id.text()),
    ensures
        prune::dead_file(Some(projection::node_file(id)), dead),
        prune::dead_in_shard(Some(projection::node_file(id)), id.text().take(2), dead),
        projection::node_file(id) != "nodes"@,
{
    projection::lemma_node_files(id, id);
    projection::lemma_uuid_shard(id.value);
    let f = projection::node_file(id);
    assert(f.take(2) =~= id.text().take(2));
}

proof fn lemma_entries_forget(entries: Seq<EntryModel>, dead: Set<Seq<char>>, id: InteractionId)
    requires
        dead.contains(id.text()),
    ensures
        layout::root_object(prune::pruned_entries(entries, dead), projection::node_file(id)) is None,
        layout::sharded_node(
            prune::pruned_entries(entries, dead),
            id.text().take(2),
            projection::node_file(id),
        ) is None,
{
    let file = projection::node_file(id);
    let shard = id.text().take(2);
    let keep = |e: EntryModel| !prune::dead_file(e.name, dead);
    let kept = entries.filter(keep);
    lemma_dead_name(id, dead);
    assert forall|i: int| 0 <= i < kept.len() implies (#[trigger] kept[i]).name != Some(file) by {
        entries.lemma_filter_pred(keep, i);
    }
    lemma_no_file(kept, file);
    let none = Seq::<EntryModel>::empty();
    lemma_no_file(none, shard);
    lemma_no_file(none, file);
    match layout::subtree(kept, "nodes"@) {
        None => {},
        Some(dirs) => {
            let dirs1 = prune::pruned_dirs(dirs, dead);
            layout::lemma_with_child(kept, "nodes"@, ObjectModel::Tree(dirs1), file);
            let all = layout::with_child(kept, "nodes"@, ObjectModel::Tree(dirs1));
            assert(layout::root_object(all, file) is None);
            assert(layout::children(all, "nodes"@) == dirs1);
            layout::lemma_find_entry(dirs1, shard, 0);
            match layout::find_entry(dirs1, shard, 0) {
                None => {
                    assert(layout::children(dirs1, shard) =~= none);
                },
                Some(j) => {
                    assert(dirs1[j] == prune::pruned_dir(dirs[j], dead));
                    match dirs[j].object {
                        ObjectModel::Tree(files) => {
                            let keep2 = |f: EntryModel| !prune::dead_in_shard(f.name, shard, dead);
                            let left = files.filter(keep2);
                            assert(dirs[j].name == Some(shard));
                            assert(dirs1[j].object == ObjectModel::Tree(left));
                            assert forall|i: int| 0 <= i < left.len() implies (
                            #[trigger] left[i]).name != Some(file) by {
                                files.lemma_filter_pred(keep2, i);
                            }
                            lemma_no_file(left, file);
                            assert(layout::children(dirs1, shard) == left);
                        },
                        _ => {
                            assert(layout::children(dirs1, shard) =~= none);
                        },
                    }
                },
            }
        },
    }
}

proof fn lemma_links_forget(
    ns: Option<NamespaceModel<LinkRecordModel>>,
    dead: Set<Seq<char>>,
    id: Seq<char>,
)
    requires
        dead.contains(id),
    ensures
        prune::pruned_links(ns, dead) matches Some(n) ==> n.kind == EntryKind::Tree
            ==> layout::find_shard(n.shards, id, 0) is None,
{
    if ns matches Some(n) && n.kind == EntryKind::Tree {
        let n = ns->0;
        let keep = |s: ShardModel<LinkRecordModel>| !dead.contains(s.name);
        let left = n.shards.filter(keep);
        layout::lemma_find_shard(left, id, 0);
        if layout::find_shard(left, id, 0) is Some {
            n.shards.lemma_filter_pred(keep, layout::find_shard(left, id, 0)->0);
        }
    }
}

proof fn lemma_pointers_forget(
    shards: Seq<ShardModel<()>>,
    dead: Set<Seq<char>>,
    id: Seq<char>,
    k: int,
)
    requires
        dead.contains(id),
        0 <= k <= shards.len(),
    ensures
        pointer_count(
            shards.map_values(|s: ShardModel<()>| prune::pruned_pointers(s, dead)),
            id,
            k,
        ) == 0,
    decreases shards.len() - k,
{
    let after = shards.map_values(|s: ShardModel<()>| prune::pruned_pointers(s, dead));
    if k < shards.len() {
        lemma_pointers_forget(shards, dead, id, k + 1);
        assert(after[k] == prune::pruned_pointers(shards[k], dead));
        if shards[k].kind == EntryKind::Tree {
            let keep = |l: LeafModel<()>| !dead.contains(l.name);
            let left = shards[k].leaves.filter(keep);
            layout::lemma_find_leaf(left, id, 0);
            if layout::find_leaf(left, id, 0) is Some {
                shards[k].leaves.lemma_filter_pred(keep, layout::find_leaf(left, id, 0)->0);
            }
        }
    }
}

/// Suppression is complete: after pruning, nothing a reader looks for holds a
/// suppressed interaction any more. Neither a node, flat or sharded, nor a
/// link record nor a pointer of the index is left.
pub proof fn law_pruning_forgets(t: TreeModel, ids: Seq<InteractionId>, id: InteractionId)
    requires
        prune::pruned(t, ids) is Ok,
        ids.contains(id),
    ensures
        !holds_target(prune::pruned(t, ids)->Ok_0, id),
        pointers_to((prune::pruned(t, ids)->Ok_0).by_commit, id.text()) == 0,
        (prune::pruned(t, ids)->Ok_0).tombstones == t.tombstones,
{
    let dead = import::id_texts(ids);
    import::lemma_id_texts(ids, id);
    lemma_entries_forget(t.entries, dead, id);
    lemma_links_forget(t.links, dead, id.text());
    if t.by_commit matches Some(n) && n.kind == EntryKind::Tree {
        lemma_pointers_forget((t.by_commit->0).shards, dead, id.text(), 0);
    }
}

proof fn lemma_baseline_leaf(
    leaves: Seq<LeafModel<EventModel>>,
    i: int,
    out: Seq<EventModel>,
    j: int,
)
    requires
        prune::baseline_leaves(leaves, i, out) is Ok,
        0 <= i <= leaves.len(),
    ensures
        out.is_prefix_of(prune::baseline_leaves(leaves, i, out)->Ok_0),
        i <= j < leaves.len() ==> leaves[j].record is Some && (prune::baseline_leaves(
            leaves,
            i,
            out,
        )->Ok_0).contains(leaves[j].record->0),
    decreases leaves.len() - i,
{
    if i < leaves.len() {
        let e = leaves[i].record->0;
        lemma_baseline_leaf(leaves, i + 1, out.push(e), j);
        let all = prune::baseline_leaves(leaves, i, out)->Ok_0;
        assert(out.push(e).is_prefix_of(all));
        assert(out.push(e)[out.len() as int] == e);
        assert(all[out.len() as int] == e);
        assert(out.is_prefix_of(all)) by {
            assert forall|m: int| 0 <= m < out.len() implies out[m] == all[m] by {
                assert(out.push(e)[m] == out[m]);
            }
            assert(out =~= all.subrange(0, out.len() as int));
        }
    } else {
        assert(out =~= out.subrange(0, out.len() as int));
    }
}

pub proof fn lemma_baseline_event(
    shards: Seq<ShardModel<EventModel>>,
    k: int,
    out: Seq<EventModel>,
    s: int,
    j: int,
)
    requires
        prune::baseline_events(shards, k, out) is Ok,
        0 <= k <= shards.len(),
    ensures
        out.is_prefix_of(prune::baseline_events(shards, k, out)->Ok_0),
        k <= s < shards.len() && 0 <= j < shards[s].leaves.len() ==> shards[s].leaves[j].record is Some
            && (prune::baseline_events(shards, k, out)->Ok_0).contains(
            shards[s].leaves[j].record->0,
        ),
    decreases shards.len() - k,
{
    if k < shards.len() {
        let next = prune::baseline_leaves(shards[k].leaves, 0, out)->Ok_0;
        lemma_baseline_leaf(shards[k].leaves, 0, out, j);
        lemma_baseline_event(shards, k + 1, next, s, j);
        let all = prune::baseline_events(shards, k, out)->Ok_0;
        assert(out =~= all.subrange(0, out.len() as int)) by {
            assert(next =~= all.subrange(0, next.len() as int));
            assert(out =~= next.subrange(0, out.len() as int));
        }
        if s == k && 0 <= j < shards[s].leaves.len() {
            let e = shards[s].leaves[j].record->0;
            let m = next.index_of(e);
            assert(all.subrange(0, next.len() as int)[m] == e);
            assert(all[m] == e);
        }
    } else {
        assert(out =~= out.subrange(0, out.len() as int));
    }
}

/// No event that is left after pruning belongs to a suppressed interaction or
/// names one among its sources.
pub proof fn law_pruned_events_forget(
    ns: NamespaceModel<EventModel>,
    ids: Seq<InteractionId>,
    id: InteractionId,
    s: int,
    j: int,
)
    requires
        ns.kind == EntryKind::Tree,
        prune::pruned_events(Some(ns), ids) is Ok,
        ids.contains(id),
        0 <= s < (prune::pruned_events(Some(ns), ids)->Ok_0->0).shards.len(),
        0 <= j < (prune::pruned_events(Some(ns), ids)->Ok_0->0).shards[s].leaves.len(),
    ensures
        (prune::pruned_events(Some(ns), ids)->Ok_0->0).shards[s].leaves[j].record matches Some(e)
            && !speaks_of(e, id),
{
    let all = prune::baseline_events(ns.shards, 0, Seq::empty())->Ok_0;
    let removed = prune::fallen(all, ids);
    let after = (prune::pruned_events(Some(ns), ids)->Ok_0->0).shards[s];
    let before = ns.shards[s];
    assert(after == prune::without_fallen(before, removed));
    let keep = |l: LeafModel<EventModel>| !layout::falls_in(l, removed);
    let leaf = after.leaves[j];
    before.leaves.lemma_filter_pred(keep, j);
    assert(before.leaves.filter(keep).contains(leaf));
    before.leaves.lemma_filter_contains_rev(keep, leaf);
    let m = before.leaves.index_of(leaf);
    lemma_baseline_event(ns.shards, 0, Seq::empty(), s, m);
    let e = leaf.record->0;
    assert(all.contains(e));
    let x = all.index_of(e);
    if speaks_of(e, id) {
        let k = ids.index_of(id);
        assert(ids[k] == id);
        assert(derivation::directly_suppressed(all[x], ids, true)) by {
            if e.interaction_id != id {
                let i = choose|i: int|
                    0 <= i < e.sources.len() && derivation::refers_to(
                        #[trigger] e.sources[i],
                        id,
                        true,
                    );
                assert(derivation::refers_to(all[x].sources[i], ids[k], true));
            }
        }
        assert(derivation::falls(e.event_id, all, ids, true));
        assert(removed.contains(e.event_id));
        assert(false);
    }
}

proof fn lemma_pointers_counted(shards: Seq<ShardModel<()>>, id: Seq<char>, k: int)
    ensures
        pointer_count(shards, id, k) >= 0,
    decreases shards.len() - k,
{
    if 0 <= k < shards.len() {
        lemma_pointers_counted(shards, id, k + 1);
    }
}

proof fn lemma_clean_leaf(
    leaves: Seq<LeafModel<EventModel>>,
    i: int,
    id: InteractionId,
    out: Seq<EventModel>,
    j: int,
)
    requires
        0 <= i <= j < leaves.len(),
        clean_leaves(leaves, i, id, out) is Ok,
    ensures
        leaves[j].record matches Some(e) && !speaks_of(e, id),
    decreases leaves.len() - i,
{
    if i < j {
        lemma_clean_leaf(leaves, i + 1, id, out.push(leaves[i].record->0), j);
    }
}

proof fn lemma_clean_shard(
    shards: Seq<ShardModel<EventModel>>,
    k: int,
    id: InteractionId,
    out: Seq<EventModel>,
    s: int,
    j: int,
)
    requires
        0 <= k <= s < shards.len(),
        0 <= j < shards[s].leaves.len(),
        clean_shards(shards, k, id, out) is Ok,
    ensures
        shards[s].leaves[j].record matches Some(e) && !speaks_of(e, id),
    decreases shards.len() - k,
{
    if k < s {
        let next = clean_leaves(shards[k].leaves, 0, id, out)->Ok_0;
        lemma_clean_shard(shards, k + 1, id, next, s, j);
    } else {
        lemma_clean_leaf(shards[k].leaves, 0, id, out, j);
    }
}

/// The entry is an event that neither belongs to the interaction nor names it.
pub open spec fn leaf_forgets(leaf: LeafModel<EventModel>, id: InteractionId) -> bool {
    leaf.record matches Some(e) && !speaks_of(e, id)
}

/// No event of the tree belongs to the interaction or names it.
pub open spec fn events_forget(ns: Option<NamespaceModel<EventModel>>, id: InteractionId) -> bool {
    ns is Some && (ns->0).kind == EntryKind::Tree ==> forall|s: int, j: int|
        0 <= s < (ns->0).shards.len() && 0 <= j < (ns->0).shards[s].leaves.len() ==> leaf_forgets(
            #[trigger] (ns->0).shards[s].leaves[j],
            id,
        )
}

/// A hard redaction is complete: the replacement holds the interaction neither
/// as a node nor in a link record nor in the index, none of its events belongs
/// to the interaction or names it, and the tombstones are those of the baseline.
pub proof fn law_redaction_forgets(t: TreeModel, id: InteractionId)
    requires
        redacted_tree(t, id) is Ok,
    ensures
        ({
            let after = (redacted_tree(t, id)->Ok_0).tree;
            &&& !holds_target(after, id)
            &&& pointers_to(after.by_commit, id.text()) == 0
            &&& after.tombstones == t.tombstones
            &&& events_forget(after.events, id)
        }),
{
    let after = (redacted_tree(t, id)->Ok_0).tree;
    assert(seq![id][0] == id);
    law_pruning_forgets(t, seq![id], id);
    if after.by_commit is Some {
        lemma_pointers_counted((after.by_commit->0).shards, id.text(), 0);
    }
    if after.events is Some && (after.events->0).kind == EntryKind::Tree {
        let shards = (after.events->0).shards;
        assert forall|s: int, j: int|
            0 <= s < shards.len() && 0 <= j < shards[s].leaves.len() implies leaf_forgets(
            #[trigger] shards[s].leaves[j],
            id,
        ) by {
            lemma_clean_shard(shards, 0, id, Seq::empty(), s, j);
        }
    }
}

/// A plan agrees with the replacement that it describes: held against a
/// parentless commit of that tree, it is found to be in order.
pub proof fn law_fresh_plan_is_valid(
    t: TreeModel,
    path: Seq<char>,
    destination: Seq<char>,
    target: InteractionId,
    tip: Seq<char>,
    commit: Seq<char>,
    temporary_ref: Seq<char>,
    now: Timestamp,
    x: Replacement,
)
    requires
        digest::is_hex(destination, 64),
        redacted_tree(t, target) is Ok,
        x.parents == 0,
        x.tree@ == (redacted_tree(t, target)->Ok_0).tree,
    ensures
        plan_fault(
            plan_for(
                path,
                destination,
                target,
                tip,
                commit,
                temporary_ref,
                redacted_tree(t, target)->Ok_0,
                x.entries,
                x.tombstone_oid@,
                now,
            ),
            path,
            x,
        ) is None,
{
    assert(seq![target][0] == target);
    law_pruning_forgets(t, seq![target], target);
}

} // verus!
