//! Removing everything that suppressed interactions left in an exchange tree.

use crate::derivation;
use crate::derivation::{retain_event_closure, suppressed_events, validate_derivation_event};
use crate::fault::SyncError;
use crate::import;
use crate::import::{Snapshot, TreeModel, texts_of_ids};
use crate::layout;
use crate::layout::{
    drop_fallen, drop_named, drop_unreferenced, set_child, subtree_of, take_children,
};
use crate::models;
use crate::models::{DerivationEvent, EventModel, InteractionId, RangeEvidence, RangeModel};
use crate::text;
use crate::text::{chars_of, starts_with};
use crate::textset::TextSet;
use crate::tree;
use crate::tree::{
    EntryKind, EntryModel, LeafModel, LinkRecordModel, MAX_SYNC_TOTAL_BYTES, Namespace,
    NamespaceModel, ObjectModel, Shard, ShardModel, SyncLinkRecord, TreeEntry, TreeObject,
    collect_derivation_events, strip_json,
};
use vstd::hash_set::StringHashSet;
use vstd::prelude::*;
use vstd::string::*;

verus! {

/// A file that holds a suppressed interaction.
pub open spec fn dead_file(name: Option<Seq<char>>, dead: Set<Seq<char>>) -> bool {
    match name {
        None => false,
        Some(n) => match tree::json_stem(n) {
            None => false,
            Some(id) => dead.contains(id),
        },
    }
}

/// A file that holds a suppressed interaction, in its own shard.
pub open spec fn dead_in_shard(
    name: Option<Seq<char>>,
    shard: Seq<char>,
    dead: Set<Seq<char>>,
) -> bool {
    dead_file(name, dead) && shard.len() == 2 && text::has_prefix(name->0, shard)
}

/// A shard of interactions without the suppressed ones.
pub open spec fn pruned_dir(e: EntryModel, dead: Set<Seq<char>>) -> EntryModel {
    match (e.name, e.object) {
        (Some(p), ObjectModel::Tree(files)) => EntryModel {
            name: e.name,
            object: ObjectModel::Tree(
                files.filter(|f: EntryModel| !dead_in_shard(f.name, p, dead)),
            ),
        },
        _ => e,
    }
}

/// The shards of interactions without the suppressed ones.
pub open spec fn pruned_dirs(dirs: Seq<EntryModel>, dead: Set<Seq<char>>) -> Seq<EntryModel> {
    dirs.map_values(|e: EntryModel| pruned_dir(e, dead))
}

/// The root without the suppressed interactions, flat or sharded.
pub open spec fn pruned_entries(entries: Seq<EntryModel>, dead: Set<Seq<char>>) -> Seq<EntryModel> {
    let kept = entries.filter(|e: EntryModel| !dead_file(e.name, dead));
    match layout::subtree(kept, "nodes"@) {
        None => kept,
        Some(dirs) => layout::with_child(
            kept,
            "nodes"@,
            ObjectModel::Tree(pruned_dirs(dirs, dead)),
        ),
    }
}

/// The link records without those of suppressed interactions.
pub open spec fn pruned_links(
    ns: Option<NamespaceModel<LinkRecordModel>>,
    dead: Set<Seq<char>>,
) -> Option<NamespaceModel<LinkRecordModel>> {
    match ns {
        Some(n) => if n.kind == EntryKind::Tree {
            Some(
                NamespaceModel {
                    kind: n.kind,
                    shards: n.shards.filter(
                        |s: ShardModel<LinkRecordModel>| !dead.contains(s.name),
                    ),
                },
            )
        } else {
            ns
        },
        None => None,
    }
}

/// The pointers of a commit without those to suppressed interactions.
pub open spec fn pruned_pointers(s: ShardModel<()>, dead: Set<Seq<char>>) -> ShardModel<()> {
    if s.kind == EntryKind::Tree {
        ShardModel {
            leaves: s.leaves.filter(|l: LeafModel<()>| !dead.contains(l.name)),
            ..s
        }
    } else {
        s
    }
}

/// The index without pointers to suppressed interactions.
pub open spec fn pruned_index(ns: Option<NamespaceModel<()>>, dead: Set<Seq<char>>) -> Option<
    NamespaceModel<()>,
> {
    match ns {
        Some(n) => if n.kind == EntryKind::Tree {
            Some(
                NamespaceModel {
                    kind: n.kind,
                    shards: n.shards.map_values(|s: ShardModel<()>| pruned_pointers(s, dead)),
                },
            )
        } else {
            ns
        },
        None => None,
    }
}

/// The events in the entries of a shard from position `i` on, behind those
/// already read.
pub open spec fn baseline_leaves(
    leaves: Seq<LeafModel<EventModel>>,
    i: int,
    out: Seq<EventModel>,
) -> Result<Seq<EventModel>, SyncError>
    decreases leaves.len() - i,
{
    if i < 0 || i >= leaves.len() {
        Ok(out)
    } else if leaves[i].kind != EntryKind::Blob {
        Err(SyncError::InvalidEventBlob)
    } else {
        match leaves[i].record {
            None => Err(SyncError::Malformed),
            Some(e) => if !derivation::valid_event(e) {
                Err(SyncError::InvalidBaselineEvent)
            } else {
                baseline_leaves(leaves, i + 1, out.push(e))
            },
        }
    }
}

/// The events in the shards from position `k` on, behind those already read.
pub open spec fn baseline_events(
    shards: Seq<ShardModel<EventModel>>,
    k: int,
    out: Seq<EventModel>,
) -> Result<Seq<EventModel>, SyncError>
    decreases shards.len() - k,
{
    if k < 0 || k >= shards.len() {
        Ok(out)
    } else if shards[k].kind != EntryKind::Tree {
        Err(SyncError::InvalidEventsTree)
    } else {
        match baseline_leaves(shards[k].leaves, 0, out) {
            Err(f) => Err(f),
            Ok(next) => baseline_events(shards, k + 1, next),
        }
    }
}

/// The identities of the events that fall.
pub open spec fn fallen(events: Seq<EventModel>, ids: Seq<InteractionId>) -> Set<Seq<char>> {
    Set::new(|x: Seq<char>| derivation::falls(x, events, ids, true))
}

/// A shard of events without the fallen ones.
pub open spec fn without_fallen(
    s: ShardModel<EventModel>,
    removed: Set<Seq<char>>,
) -> ShardModel<EventModel> {
    ShardModel {
        leaves: s.leaves.filter(|l: LeafModel<EventModel>| !layout::falls_in(l, removed)),
        ..s
    }
}

/// The events without those of suppressed interactions and everything drawn
/// from them. Event identity, not the order of the entries, drives the closure,
/// so that a chain of events falls whatever the names sort like.
pub open spec fn pruned_events(
    ns: Option<NamespaceModel<EventModel>>,
    ids: Seq<InteractionId>,
) -> Result<Option<NamespaceModel<EventModel>>, SyncError> {
    match ns {
        None => Ok(None),
        Some(n) => if n.kind != EntryKind::Tree {
            Ok(ns)
        } else {
            match baseline_events(n.shards, 0, Seq::empty()) {
                Err(f) => Err(f),
                Ok(all) => Ok(
                    Some(
                        NamespaceModel {
                            kind: n.kind,
                            shards: n.shards.map_values(
                                |s: ShardModel<EventModel>| without_fallen(s, fallen(all, ids)),
                            ),
                        },
                    ),
                ),
            }
        },
    }
}

/// What stops the reading of ranges in a shard, from position `i` on.
pub open spec fn range_leaf_fault(leaves: Seq<LeafModel<RangeModel>>, i: int) -> Option<SyncError>
    decreases leaves.len() - i,
{
    if i < 0 || i >= leaves.len() {
        None
    } else if leaves[i].kind != EntryKind::Blob || leaves[i].record is None {
        Some(SyncError::Malformed)
    } else {
        range_leaf_fault(leaves, i + 1)
    }
}

/// What stops the reading of ranges, from shard `k` on.
pub open spec fn range_fault(shards: Seq<ShardModel<RangeModel>>, k: int) -> Option<SyncError>
    decreases shards.len() - k,
{
    if k < 0 || k >= shards.len() {
        None
    } else if shards[k].kind != EntryKind::Tree {
        Some(SyncError::Malformed)
    } else {
        match range_leaf_fault(shards[k].leaves, 0) {
            Some(f) => Some(f),
            None => range_fault(shards, k + 1),
        }
    }
}

/// The ranges that events refer to.
pub open spec fn referenced_ranges(events: Seq<EventModel>) -> Set<Seq<char>> {
    Set::new(
        |x: Seq<char>|
            exists|k: int| 0 <= k < events.len() && (#[trigger] events[k]).range_id == Some(x),
    )
}

/// A shard of ranges without the unreferenced ones.
pub open spec fn without_unreferenced(
    s: ShardModel<RangeModel>,
    referenced: Set<Seq<char>>,
) -> ShardModel<RangeModel> {
    ShardModel {
        leaves: s.leaves.filter(|l: LeafModel<RangeModel>| layout::referenced_in(l, referenced)),
        ..s
    }
}

/// The ranges that surviving events refer to. A range carries no interaction;
/// it goes when no event that refers to it survives.
pub open spec fn pruned_ranges(
    ns: Option<NamespaceModel<RangeModel>>,
    events: Option<NamespaceModel<EventModel>>,
    ids: Seq<InteractionId>,
) -> Result<Option<NamespaceModel<RangeModel>>, SyncError> {
    match ns {
        None => Ok(None),
        Some(n) => if n.kind != EntryKind::Tree {
            Ok(ns)
        } else {
            match tree::read_events(events, 0, MAX_SYNC_TOTAL_BYTES as int) {
                Err(f) => Err(f),
                Ok(scan) => match range_fault(n.shards, 0) {
                    Some(f) => Err(f),
                    None => {
                        let kept = derivation::survivors(scan.out, ids, false);
                        Ok(
                            Some(
                                NamespaceModel {
                                    kind: n.kind,
                                    shards: n.shards.map_values(
                                        |s: ShardModel<RangeModel>|
                                            without_unreferenced(s, referenced_ranges(kept)),
                                    ),
                                },
                            ),
                        )
                    },
                },
            }
        },
    }
}

/// A tree without anything of the suppressed interactions. The tombstones stay.
pub open spec fn pruned(t: TreeModel, ids: Seq<InteractionId>) -> Result<TreeModel, SyncError> {
    let dead = import::id_texts(ids);
    match pruned_events(t.events, ids) {
        Err(f) => Err(f),
        Ok(events) => match pruned_ranges(t.ranges, t.events, ids) {
            Err(f) => Err(f),
            Ok(ranges) => Ok(
                TreeModel {
                    format: t.format,
                    entries: pruned_entries(t.entries, dead),
                    tombstones: t.tombstones,
                    links: pruned_links(t.links, dead),
                    events,
                    ranges,
                    by_commit: pruned_index(t.by_commit, dead),
                },
            ),
        },
    }
}

fn is_dead_file(name: &Option<String>, dead: &TextSet) -> (r: bool)
    requires
        dead.wf(),
    ensures
        r == dead_file(models::opt_text(*name), dead@),
{
    match name {
        None => false,
        Some(n) => match strip_json(n.as_str()) {
            None => false,
            Some(id) => dead.contains(id.as_str()),
        },
    }
}

fn is_dead_in_shard(name: &Option<String>, shard: &str, dead: &TextSet) -> (r: bool)
    requires
        dead.wf(),
    ensures
        r == dead_in_shard(models::opt_text(*name), shard@, dead@),
{
    if !is_dead_file(name, dead) || chars_of(shard).len() != 2 {
        return false;
    }
    match name {
        None => false,
        Some(n) => starts_with(n.as_str(), shard),
    }
}

/// Removes the files of suppressed interactions.
fn drop_files(list: &mut Vec<TreeEntry>, dead: &TextSet)
    requires
        dead.wf(),
    ensures
        tree::entry_models(final(list)@) == tree::entry_models(old(list)@).filter((|e: EntryModel| !dead_file(e.name, dead@))),
{
    let ghost s = tree::entry_models(list@);
    let ghost keep = (|e: EntryModel| !dead_file(e.name, dead@));
    let ghost mut j: int = 0;
    let mut i: usize = 0;
    assert(s.take(0).filter(keep) =~= tree::entry_models(list@).take(0)) by {
        reveal(Seq::filter);
    }
    assert(s.skip(0) =~= s);
    assert(tree::entry_models(list@).skip(0) =~= s);
    while i < list.len()
        invariant
            i <= list.len(),
            dead.wf(),
            0 <= j <= s.len(),
            keep == (|e: EntryModel| !dead_file(e.name, dead@)),
            tree::entry_models(list@).take(i as int) == s.take(j).filter(keep),
            tree::entry_models(list@).skip(i as int) == s.skip(j),
        decreases list.len() - i,
    {
        let ghost cur = tree::entry_models(list@);
        proof {
            reveal(Seq::filter);
            assert(cur.skip(i as int).len() == s.skip(j).len());
            assert(cur.skip(i as int).len() > 0);
            assert(j < s.len());
            assert(cur.skip(i as int)[0] == cur[i as int]);
            assert(s.skip(j)[0] == s[j]);
            assert(cur[i as int] == tree::entry_model(list@[i as int]));
            assert(s.take(j + 1).drop_last() =~= s.take(j));
            assert(s.take(j + 1).last() == s[j]);
            assert(s.skip(j).drop_first() =~= s.skip(j + 1));
        }
        if is_dead_file(&list[i].name, dead) {
            list.remove(i);
            proof {
                let now = tree::entry_models(list@);
                assert(now.take(i as int) =~= cur.take(i as int));
                assert(now.skip(i as int) =~= cur.skip(i as int).drop_first());
            }
        } else {
            i += 1;
            proof {
                assert(cur.take(i as int) =~= cur.take(i - 1).push(s[j]));
                assert(cur.skip(i as int) =~= cur.skip(i - 1).drop_first());
            }
        }
        proof {
            j = j + 1;
        }
    }
    proof {
        let cur = tree::entry_models(list@);
        assert(cur.skip(i as int).len() == 0);
        assert(s.skip(j).len() == 0);
        assert(s.take(j) =~= s);
        assert(cur.take(i as int) =~= cur);
    }
}

/// Removes the files of suppressed interactions from a shard.
fn drop_shard_files(list: &mut Vec<TreeEntry>, shard: &str, dead: &TextSet)
    requires
        dead.wf(),
    ensures
        tree::entry_models(final(list)@) == tree::entry_models(old(list)@).filter((|f: EntryModel| !dead_in_shard(f.name, shard@, dead@))),
{
    let ghost s = tree::entry_models(list@);
    let ghost keep = (|f: EntryModel| !dead_in_shard(f.name, shard@, dead@));
    let ghost mut j: int = 0;
    let mut i: usize = 0;
    assert(s.take(0).filter(keep) =~= tree::entry_models(list@).take(0)) by {
        reveal(Seq::filter);
    }
    assert(s.skip(0) =~= s);
    assert(tree::entry_models(list@).skip(0) =~= s);
    while i < list.len()
        invariant
            i <= list.len(),
            dead.wf(),
            0 <= j <= s.len(),
            keep == (|f: EntryModel| !dead_in_shard(f.name, shard@, dead@)),
            tree::entry_models(list@).take(i as int) == s.take(j).filter(keep),
            tree::entry_models(list@).skip(i as int) == s.skip(j),
        decreases list.len() - i,
    {
        let ghost cur = tree::entry_models(list@);
        proof {
            reveal(Seq::filter);
            assert(cur.skip(i as int).len() == s.skip(j).len());
            assert(cur.skip(i as int).len() > 0);
            assert(j < s.len());
            assert(cur.skip(i as int)[0] == cur[i as int]);
            assert(s.skip(j)[0] == s[j]);
            assert(cur[i as int] == tree::entry_model(list@[i as int]));
            assert(s.take(j + 1).drop_last() =~= s.take(j));
            assert(s.take(j + 1).last() == s[j]);
            assert(s.skip(j).drop_first() =~= s.skip(j + 1));
        }
        if is_dead_in_shard(&list[i].name, shard, dead) {
            list.remove(i);
            proof {
                let now = tree::entry_models(list@);
                assert(now.take(i as int) =~= cur.take(i as int));
                assert(now.skip(i as int) =~= cur.skip(i as int).drop_first());
            }
        } else {
            i += 1;
            proof {
                assert(cur.take(i as int) =~= cur.take(i - 1).push(s[j]));
                assert(cur.skip(i as int) =~= cur.skip(i - 1).drop_first());
            }
        }
        proof {
            j = j + 1;
        }
    }
    proof {
        let cur = tree::entry_models(list@);
        assert(cur.skip(i as int).len() == 0);
        assert(s.skip(j).len() == 0);
        assert(s.take(j) =~= s);
        assert(cur.take(i as int) =~= cur);
    }
}

/// Removes the link records of suppressed interactions.
fn drop_links(list: &mut Vec<Shard<SyncLinkRecord>>, dead: &TextSet)
    requires
        dead.wf(),
    ensures
        tree::shard_models(final(list)@) == tree::shard_models(old(list)@).filter((|s: ShardModel<LinkRecordModel>| !dead@.contains(s.name))),
{
    let ghost s = tree::shard_models(list@);
    let ghost keep = (|s: ShardModel<LinkRecordModel>| !dead@.contains(s.name));
    let ghost mut j: int = 0;
    let mut i: usize = 0;
    assert(s.take(0).filter(keep) =~= tree::shard_models(list@).take(0)) by {
        reveal(Seq::filter);
    }
    assert(s.skip(0) =~= s);
    assert(tree::shard_models(list@).skip(0) =~= s);
    while i < list.len()
        invariant
            i <= list.len(),
            dead.wf(),
            0 <= j <= s.len(),
            keep == (|s: ShardModel<LinkRecordModel>| !dead@.contains(s.name)),
            tree::shard_models(list@).take(i as int) == s.take(j).filter(keep),
            tree::shard_models(list@).skip(i as int) == s.skip(j),
        decreases list.len() - i,
    {
        let ghost cur = tree::shard_models(list@);
        proof {
            reveal(Seq::filter);
            assert(cur.skip(i as int).len() == s.skip(j).len());
            assert(cur.skip(i as int).len() > 0);
            assert(j < s.len());
            assert(cur.skip(i as int)[0] == cur[i as int]);
            assert(s.skip(j)[0] == s[j]);
            assert(cur[i as int] == list@[i as int]@);
            assert(s.take(j + 1).drop_last() =~= s.take(j));
            assert(s.take(j + 1).last() == s[j]);
            assert(s.skip(j).drop_first() =~= s.skip(j + 1));
        }
        if dead.contains(list[i].name.as_str()) {
            list.remove(i);
            proof {
                let now = tree::shard_models(list@);
                assert(now.take(i as int) =~= cur.take(i as int));
                assert(now.skip(i as int) =~= cur.skip(i as int).drop_first());
            }
        } else {
            i += 1;
            proof {
                assert(cur.take(i as int) =~= cur.take(i - 1).push(s[j]));
                assert(cur.skip(i as int) =~= cur.skip(i - 1).drop_first());
            }
        }
        proof {
            j = j + 1;
        }
    }
    proof {
        let cur = tree::shard_models(list@);
        assert(cur.skip(i as int).len() == 0);
        assert(s.skip(j).len() == 0);
        assert(s.take(j) =~= s);
        assert(cur.take(i as int) =~= cur);
    }
}

fn prune_dir(e: TreeEntry, dead: &TextSet) -> (r: TreeEntry)
    requires
        dead.wf(),
    ensures
        tree::entry_model(r) == pruned_dir(tree::entry_model(e), dead@),
{
    let ghost before = tree::entry_model(e);
    let TreeEntry { name, object } = e;
    match name {
        None => TreeEntry { name: None, object },
        Some(p) => match object {
            TreeObject::Tree(files) => {
                let mut files = files;
                assert(before.object->Tree_0 =~= tree::entry_models(files@));
                drop_shard_files(&mut files, p.as_str(), dead);
                let r = TreeEntry { name: Some(p), object: TreeObject::Tree(files) };
                assert(tree::entry_model(r).object->Tree_0 =~= tree::entry_models(files@));
                r
            },
            other => TreeEntry { name: Some(p), object: other },
        },
    }
}

fn prune_dirs(dirs: &mut Vec<TreeEntry>, dead: &TextSet)
    requires
        dead.wf(),
    ensures
        tree::entry_models(final(dirs)@) == pruned_dirs(tree::entry_models(old(dirs)@), dead@),
{
    let ghost s = tree::entry_models(dirs@);
    let mut i: usize = 0;
    while i < dirs.len()
        invariant
            i <= dirs.len(),
            dirs.len() == s.len(),
            dead.wf(),
            forall|k: int|
                0 <= k < i ==> #[trigger] tree::entry_models(dirs@)[k] == pruned_dir(s[k], dead@),
            forall|k: int| i <= k < s.len() ==> #[trigger] tree::entry_models(dirs@)[k] == s[k],
        decreases dirs.len() - i,
    {
        let ghost cur = tree::entry_models(dirs@);
        assert(cur[i as int] == tree::entry_model(dirs@[i as int]));
        let e = dirs.remove(i);
        let e = prune_dir(e, dead);
        let ghost em = tree::entry_model(e);
        dirs.insert(i, e);
        assert(tree::entry_models(dirs@) =~= cur.update(i as int, em));
        i += 1;
    }
    assert(tree::entry_models(dirs@) =~= pruned_dirs(s, dead@));
}

fn prune_entries(entries: &mut Vec<TreeEntry>, dead: &TextSet)
    requires
        dead.wf(),
    ensures
        tree::entry_models(final(entries)@) == pruned_entries(
            tree::entry_models(old(entries)@),
            dead@,
        ),
{
    drop_files(entries, dead);
    if subtree_of(entries, "nodes").is_some() {
        let mut dirs = take_children(entries, "nodes");
        prune_dirs(&mut dirs, dead);
        proof {
            layout::lemma_tree_model(dirs);
        }
        set_child(entries, "nodes", TreeObject::Tree(dirs));
    }
}

fn prune_links(ns: &mut Option<Namespace<SyncLinkRecord>>, dead: &TextSet)
    requires
        dead.wf(),
    ensures
        tree::opt_namespace(*final(ns)) == pruned_links(tree::opt_namespace(*old(ns)), dead@),
{
    match ns.take() {
        None => {},
        Some(n) => {
            let mut n = n;
            if n.kind == EntryKind::Tree {
                drop_links(&mut n.shards, dead);
            }
            *ns = Some(n);
        },
    }
}

fn prune_pointers(shards: &mut Vec<Shard<()>>, dead: &TextSet)
    requires
        dead.wf(),
    ensures
        tree::shard_models(final(shards)@) == tree::shard_models(old(shards)@).map_values(
            |s: ShardModel<()>| pruned_pointers(s, dead@),
        ),
{
    let ghost ss = tree::shard_models(shards@);
    let ghost made = |s: ShardModel<()>| pruned_pointers(s, dead@);
    let mut i: usize = 0;
    while i < shards.len()
        invariant
            i <= shards.len(),
            shards.len() == ss.len(),
            dead.wf(),
            made == (|s: ShardModel<()>| pruned_pointers(s, dead@)),
            forall|k: int|
                0 <= k < i ==> #[trigger] tree::shard_models(shards@)[k] == made(ss[k]),
            forall|k: int| i <= k < ss.len() ==> #[trigger] tree::shard_models(shards@)[k] == ss[k],
        decreases shards.len() - i,
    {
        let ghost cur = tree::shard_models(shards@);
        assert(cur[i as int] == shards@[i as int]@);
        let mut s = shards.remove(i);
        let ghost before = s@;
        if s.kind == EntryKind::Tree {
            drop_named(&mut s.leaves, dead);
        }
        assert(s@ =~= made(before));
        let ghost sm = s@;
        shards.insert(i, s);
        assert(tree::shard_models(shards@) =~= cur.update(i as int, sm));
        i += 1;
    }
    assert(tree::shard_models(shards@) =~= ss.map_values(made));
}

fn prune_event_shards(shards: &mut Vec<Shard<DerivationEvent>>, removed: &StringHashSet)
    ensures
        tree::shard_models(final(shards)@) == tree::shard_models(old(shards)@).map_values(
            |s: ShardModel<EventModel>| without_fallen(s, removed@),
        ),
{
    let ghost ss = tree::shard_models(shards@);
    let ghost made = |s: ShardModel<EventModel>| without_fallen(s, removed@);
    let mut i: usize = 0;
    while i < shards.len()
        invariant
            i <= shards.len(),
            shards.len() == ss.len(),
            made == (|s: ShardModel<EventModel>| without_fallen(s, removed@)),
            forall|k: int|
                0 <= k < i ==> #[trigger] tree::shard_models(shards@)[k] == made(ss[k]),
            forall|k: int| i <= k < ss.len() ==> #[trigger] tree::shard_models(shards@)[k] == ss[k],
        decreases shards.len() - i,
    {
        let ghost cur = tree::shard_models(shards@);
        assert(cur[i as int] == shards@[i as int]@);
        let mut s = shards.remove(i);
        let ghost before = s@;
        drop_fallen(&mut s.leaves, removed);
        assert(s@ =~= made(before));
        let ghost sm = s@;
        shards.insert(i, s);
        assert(tree::shard_models(shards@) =~= cur.update(i as int, sm));
        i += 1;
    }
    assert(tree::shard_models(shards@) =~= ss.map_values(made));
}

fn prune_range_shards(shards: &mut Vec<Shard<RangeEvidence>>, referenced: &TextSet)
    requires
        referenced.wf(),
    ensures
        tree::shard_models(final(shards)@) == tree::shard_models(old(shards)@).map_values(
            |s: ShardModel<RangeModel>| without_unreferenced(s, referenced@),
        ),
{
    let ghost ss = tree::shard_models(shards@);
    let ghost made = |s: ShardModel<RangeModel>| without_unreferenced(s, referenced@);
    let mut i: usize = 0;
    while i < shards.len()
        invariant
            i <= shards.len(),
            shards.len() == ss.len(),
            referenced.wf(),
            made == (|s: ShardModel<RangeModel>| without_unreferenced(s, referenced@)),
            forall|k: int|
                0 <= k < i ==> #[trigger] tree::shard_models(shards@)[k] == made(ss[k]),
            forall|k: int| i <= k < ss.len() ==> #[trigger] tree::shard_models(shards@)[k] == ss[k],
        decreases shards.len() - i,
    {
        let ghost cur = tree::shard_models(shards@);
        assert(cur[i as int] == shards@[i as int]@);
        let mut s = shards.remove(i);
        let ghost before = s@;
        drop_unreferenced(&mut s.leaves, referenced);
        assert(s@ =~= made(before));
        let ghost sm = s@;
        shards.insert(i, s);
        assert(tree::shard_models(shards@) =~= cur.update(i as int, sm));
        i += 1;
    }
    assert(tree::shard_models(shards@) =~= ss.map_values(made));
}

fn prune_index(ns: &mut Option<Namespace<()>>, dead: &TextSet)
    requires
        dead.wf(),
    ensures
        tree::opt_namespace(*final(ns)) == pruned_index(tree::opt_namespace(*old(ns)), dead@),
{
    match ns.take() {
        None => {},
        Some(n) => {
            let mut n = n;
            if n.kind == EntryKind::Tree {
                prune_pointers(&mut n.shards, dead);
            }
            *ns = Some(n);
        },
    }
}

/// Reads the events of a tree that suppression starts from.
fn read_baseline(shards: &Vec<Shard<DerivationEvent>>) -> (r: Result<
    Vec<DerivationEvent>,
    SyncError,
>)
    ensures
        match baseline_events(tree::shard_models(shards@), 0, Seq::empty()) {
            Ok(s) => r matches Ok(v) && derivation::models(v@) == s,
            Err(f) => r matches Err(e) && e == f,
        },
{
    let ghost ss = tree::shard_models(shards@);
    let mut out: Vec<DerivationEvent> = Vec::new();
    assert(derivation::models(out@) =~= Seq::empty());
    let mut k: usize = 0;
    while k < shards.len()
        invariant
            k <= shards.len(),
            ss == tree::shard_models(shards@),
            baseline_events(ss, 0, Seq::empty()) == baseline_events(
                ss,
                k as int,
                derivation::models(out@),
            ),
        decreases shards.len() - k,
    {
        let shard = &shards[k];
        assert(ss[k as int] == shard@);
        if shard.kind != EntryKind::Tree {
            return Err(SyncError::InvalidEventsTree);
        }
        let ghost start = derivation::models(out@);
        let mut i: usize = 0;
        while i < shard.leaves.len()
            invariant
                k < shards.len(),
                i <= shard.leaves.len(),
                ss == tree::shard_models(shards@),
                shard@ == ss[k as int],
                shard.kind == EntryKind::Tree,
                baseline_events(ss, 0, Seq::empty()) == baseline_events(ss, k as int, start),
                baseline_leaves(shard@.leaves, 0, start) == baseline_leaves(
                    shard@.leaves,
                    i as int,
                    derivation::models(out@),
                ),
            decreases shard.leaves.len() - i,
        {
            let leaf = &shard.leaves[i];
            assert(shard@.leaves[i as int] == leaf@);
            if leaf.kind != EntryKind::Blob {
                return Err(SyncError::InvalidEventBlob);
            }
            match &leaf.record {
                None => {
                    return Err(SyncError::Malformed);
                },
                Some(e) => {
                    if !validate_derivation_event(e) {
                        return Err(SyncError::InvalidBaselineEvent);
                    }
                    let ghost held = derivation::models(out@);
                    out.push(e.clone());
                    assert(derivation::models(out@) =~= held.push(e@));
                },
            }
            i += 1;
        }
        k += 1;
    }
    Ok(out)
}

/// Removes the events of suppressed interactions and everything drawn from them.
pub fn prune_event_closure(
    ns: Option<Namespace<DerivationEvent>>,
    suppressed: &Vec<InteractionId>,
) -> (r: Result<Option<Namespace<DerivationEvent>>, SyncError>)
    ensures
        match pruned_events(tree::opt_namespace(ns), suppressed@) {
            Ok(m) => r matches Ok(n) && tree::opt_namespace(n) == m,
            Err(f) => r matches Err(e) && e == f,
        },
{
    match ns {
        None => Ok(None),
        Some(n) => {
            let mut n = n;
            if n.kind != EntryKind::Tree {
                return Ok(Some(n));
            }
            let events = match read_baseline(&n.shards) {
                Ok(events) => events,
                Err(f) => {
                    return Err(f);
                },
            };
            let removed = suppressed_events(&events, suppressed, true);
            assert(removed@ =~= fallen(derivation::models(events@), suppressed@));
            prune_event_shards(&mut n.shards, &removed);
            Ok(Some(n))
        },
    }
}

fn check_ranges(shards: &Vec<Shard<RangeEvidence>>) -> (r: Result<(), SyncError>)
    ensures
        match range_fault(tree::shard_models(shards@), 0) {
            None => r is Ok,
            Some(f) => r matches Err(e) && e == f,
        },
{
    let ghost ss = tree::shard_models(shards@);
    let mut k: usize = 0;
    while k < shards.len()
        invariant
            k <= shards.len(),
            ss == tree::shard_models(shards@),
            range_fault(ss, 0) == range_fault(ss, k as int),
        decreases shards.len() - k,
    {
        let shard = &shards[k];
        assert(ss[k as int] == shard@);
        if shard.kind != EntryKind::Tree {
            return Err(SyncError::Malformed);
        }
        let mut i: usize = 0;
        while i < shard.leaves.len()
            invariant
                k < shards.len(),
                i <= shard.leaves.len(),
                ss == tree::shard_models(shards@),
                shard@ == ss[k as int],
                shard.kind == EntryKind::Tree,
                range_fault(ss, 0) == range_fault(ss, k as int),
                range_leaf_fault(shard@.leaves, 0) == range_leaf_fault(shard@.leaves, i as int),
            decreases shard.leaves.len() - i,
        {
            let leaf = &shard.leaves[i];
            assert(shard@.leaves[i as int] == leaf@);
            if leaf.kind != EntryKind::Blob || leaf.record.is_none() {
                return Err(SyncError::Malformed);
            }
            i += 1;
        }
        k += 1;
    }
    Ok(())
}

fn ranges_of(events: &Vec<DerivationEvent>) -> (r: TextSet)
    ensures
        r.wf(),
        r@ == referenced_ranges(derivation::models(events@)),
{
    let ghost s = derivation::models(events@);
    let mut out = TextSet::new();
    let mut i: usize = 0;
    while i < events.len()
        invariant
            i <= events.len(),
            out.wf(),
            s == derivation::models(events@),
            forall|x: Seq<char>| #[trigger]
                out@.contains(x) <==> exists|k: int|
                    0 <= k < i && (#[trigger] s[k]).range_id == Some(x),
        decreases events.len() - i,
    {
        assert(s[i as int] == events@[i as int]@);
        let ghost before = out@;
        match &events[i].range_id {
            Some(id) => {
                out.insert(id.clone());
            },
            None => {},
        }
        i += 1;
        proof {
            assert forall|x: Seq<char>| #[trigger] out@.contains(x) <==> exists|k: int|
                0 <= k < i && (#[trigger] s[k]).range_id == Some(x) by {
                if out@.contains(x) {
                    if before.contains(x) {
                        let k = choose|k: int|
                            0 <= k < i - 1 && (#[trigger] s[k]).range_id == Some(x);
                        assert(s[k].range_id == Some(x));
                    } else {
                        assert(s[i - 1].range_id == Some(x));
                    }
                }
                if exists|k: int| 0 <= k < i && (#[trigger] s[k]).range_id == Some(x) {
                    let k = choose|k: int| 0 <= k < i && (#[trigger] s[k]).range_id == Some(x);
                    if k < i - 1 {
                        assert(before.contains(x));
                    }
                }
            }
        }
    }
    assert(out@ =~= referenced_ranges(s));
    out
}

/// Removes the ranges that no surviving event refers to.
pub fn prune_range_sources(
    ns: Option<Namespace<RangeEvidence>>,
    events: &Option<Namespace<DerivationEvent>>,
    suppressed: &Vec<InteractionId>,
) -> (r: Result<Option<Namespace<RangeEvidence>>, SyncError>)
    ensures
        match pruned_ranges(tree::opt_namespace(ns), tree::opt_namespace(*events), suppressed@) {
            Ok(m) => r matches Ok(n) && tree::opt_namespace(n) == m,
            Err(f) => r matches Err(e) && e == f,
        },
{
    match ns {
        None => Ok(None),
        Some(n) => {
            let mut n = n;
            if n.kind != EntryKind::Tree {
                return Ok(Some(n));
            }
            let mut bytes: usize = 0;
            let all = match collect_derivation_events(events, &mut bytes, MAX_SYNC_TOTAL_BYTES) {
                Ok(all) => all,
                Err(f) => {
                    return Err(f);
                },
            };
            let surviving = retain_event_closure(&all, suppressed, false);
            match check_ranges(&n.shards) {
                Ok(_) => {},
                Err(f) => {
                    return Err(f);
                },
            }
            let referenced = ranges_of(&surviving);
            prune_range_shards(&mut n.shards, &referenced);
            Ok(Some(n))
        },
    }
}

/// Removes everything of the suppressed interactions but their tombstones.
/// The bodies stay in the object database but are no longer reachable: this is
/// suppression, not erasure.
pub fn prune(snap: Snapshot, suppressed: &Vec<InteractionId>) -> (r: Result<Snapshot, SyncError>)
    ensures
        match pruned(snap@, suppressed@) {
            Ok(m) => r matches Ok(s) && s@ == m,
            Err(f) => r matches Err(e) && e == f,
        },
{
    let Snapshot { format, entries, tombstones, links, events, ranges, by_commit } = snap;
    let ranges = match prune_range_sources(ranges, &events, suppressed) {
        Ok(ranges) => ranges,
        Err(f) => {
            match prune_event_closure(events, suppressed) {
                Ok(_) => {},
                Err(g) => {
                    return Err(g);
                },
            }
            return Err(f);
        },
    };
    let events = match prune_event_closure(events, suppressed) {
        Ok(events) => events,
        Err(f) => {
            return Err(f);
        },
    };
    let dead = texts_of_ids(suppressed);
    let mut entries = entries;
    let mut links = links;
    let mut by_commit = by_commit;
    prune_entries(&mut entries, &dead);
    prune_links(&mut links, &dead);
    prune_index(&mut by_commit, &dead);
    Ok(
        Snapshot {
            format,
            entries,
            tombstones,
            links,
            events,
            ranges,
            by_commit,
        },
    )
}

} // verus!
