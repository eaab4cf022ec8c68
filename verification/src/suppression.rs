//! Suppression across a projection: what is left of a suppressed interaction in
//! the tree that is published.

use crate::derivation;
use crate::fault::SyncError;
use crate::import;
use crate::import::TreeModel;
use crate::layout;
use crate::models::{EventModel, InteractionId, LinkModel};
use crate::projection;
use crate::projection::{
    EndpointScan, Growth, LocalLinkModel, LocalModel, LocalNodeModel, LocalProjectionModel,
};
use crate::redaction;
use crate::tree;
use crate::tree::{
    BlobModel, EntryKind, EntryModel, LeafModel, LinkRecordModel, NamespaceModel, ObjectModel,
};
use vstd::prelude::*;

verus! {

/// A file of the interaction stands somewhere among the entries, at most `depth`
/// levels down.
pub open spec fn names_node(entries: Seq<EntryModel>, depth: nat, id: Seq<char>) -> bool
    decreases depth,
{
    exists|i: int|
        0 <= i < entries.len() && match ((#[trigger] entries[i]).name, entries[i].object) {
            (Some(name), ObjectModel::Blob(_)) => tree::json_stem(name) == Some(id),
            (Some(name), ObjectModel::Tree(sub)) => depth > 0 && !tree::reserved_name(name)
                && names_node(sub, (depth - 1) as nat, id),
            _ => false,
        }
}

/// An entry is a file of the interaction, or a directory with one at most `depth`
/// levels down.
pub open spec fn entry_names(e: EntryModel, depth: nat, id: Seq<char>) -> bool {
    match (e.name, e.object) {
        (Some(name), ObjectModel::Blob(_)) => tree::json_stem(name) == Some(id),
        (Some(name), ObjectModel::Tree(sub)) => depth > 0 && !tree::reserved_name(name)
            && names_node(sub, (depth - 1) as nat, id),
        _ => false,
    }
}

proof fn lemma_entry_names(entries: Seq<EntryModel>, depth: nat, id: Seq<char>)
    ensures
        names_node(entries, depth, id) <==> exists|i: int|
            0 <= i < entries.len() && #[trigger] entry_names(entries[i], depth, id),
{
    if names_node(entries, depth, id) {
        let i = choose|i: int|
            0 <= i < entries.len() && match ((#[trigger] entries[i]).name, entries[i].object) {
                (Some(name), ObjectModel::Blob(_)) => tree::json_stem(name) == Some(id),
                (Some(name), ObjectModel::Tree(sub)) => depth > 0 && !tree::reserved_name(name)
                    && names_node(sub, (depth - 1) as nat, id),
                _ => false,
            };
        assert(entry_names(entries[i], depth, id));
    }
    if exists|i: int| 0 <= i < entries.len() && #[trigger] entry_names(entries[i], depth, id) {
        let i = choose|i: int|
            0 <= i < entries.len() && #[trigger] entry_names(entries[i], depth, id);
        let e = entries[i];
        assert(match (e.name, e.object) {
            (Some(name), ObjectModel::Blob(_)) => tree::json_stem(name) == Some(id),
            (Some(name), ObjectModel::Tree(sub)) => depth > 0 && !tree::reserved_name(name)
                && names_node(sub, (depth - 1) as nat, id),
            _ => false,
        });
    }
}

/// Where no file of an interaction stands, none is found.
proof fn lemma_blobs_without(
    entries: Seq<EntryModel>,
    depth: nat,
    i: int,
    found: Seq<(Seq<char>, BlobModel)>,
    id: Seq<char>,
)
    requires
        0 <= i <= entries.len(),
        !names_node(entries, depth, id),
        forall|k: int| 0 <= k < found.len() ==> (#[trigger] found[k]).0 != id,
    ensures
        tree::node_blobs(entries, depth, i, found) matches Ok(refs) ==> forall|k: int|
            0 <= k < refs.len() ==> (#[trigger] refs[k]).0 != id,
    decreases depth, entries.len() - i,
{
    if i < entries.len() {
        lemma_entry_names(entries, depth, id);
        assert(!entry_names(entries[i], depth, id));
        match (entries[i].name, entries[i].object) {
            (Some(name), ObjectModel::Blob(blob)) => {
                match tree::json_stem(name) {
                    Some(other) => {
                        lemma_blobs_without(entries, depth, i + 1, found.push((other, blob)), id);
                    },
                    None => {
                        lemma_blobs_without(entries, depth, i + 1, found, id);
                    },
                }
            },
            (Some(name), ObjectModel::Tree(sub)) => {
                if depth > 0 && !tree::reserved_name(name) {
                    lemma_blobs_without(sub, (depth - 1) as nat, 0, found, id);
                    if tree::node_blobs(sub, (depth - 1) as nat, 0, found) is Ok {
                        lemma_blobs_without(
                            entries,
                            depth,
                            i + 1,
                            tree::node_blobs(sub, (depth - 1) as nat, 0, found)->Ok_0,
                            id,
                        );
                    }
                } else {
                    lemma_blobs_without(entries, depth, i + 1, found, id);
                }
            },
            _ => {
                lemma_blobs_without(entries, depth, i + 1, found, id);
            },
        }
    }
}

proof fn lemma_child_without(
    entries: Seq<EntryModel>,
    name: Seq<char>,
    object: ObjectModel,
    depth: nat,
    id: Seq<char>,
)
    requires
        !names_node(entries, depth, id),
        !entry_names(EntryModel { name: Some(name), object }, depth, id),
    ensures
        !names_node(layout::with_child(entries, name, object), depth, id),
{
    let after = layout::with_child(entries, name, object);
    let entry = EntryModel { name: Some(name), object };
    layout::lemma_find_entry(entries, name, 0);
    lemma_entry_names(entries, depth, id);
    lemma_entry_names(after, depth, id);
    assert forall|i: int| 0 <= i < after.len() implies !(#[trigger] entry_names(after[i], depth, id)) by {
        if after[i] != entry {
            assert(after[i] == entries[i]);
            assert(!entry_names(entries[i], depth, id));
        }
    }
}

proof fn lemma_children_without(
    entries: Seq<EntryModel>,
    name: Seq<char>,
    depth: nat,
    id: Seq<char>,
)
    requires
        depth > 0,
        !tree::reserved_name(name),
        !names_node(entries, depth, id),
    ensures
        !names_node(layout::children(entries, name), (depth - 1) as nat, id),
{
    layout::lemma_find_entry(entries, name, 0);
    lemma_entry_names(entries, depth, id);
    match layout::find_entry(entries, name, 0) {
        Some(k) => {
            assert(!entry_names(entries[k], depth, id));
        },
        None => {},
    }
}

proof fn lemma_added_nodes_name(
    g: Growth,
    nodes: Seq<LocalNodeModel>,
    dead: Set<Seq<char>>,
    k: int,
    done: Growth,
    id: InteractionId,
)
    requires
        projection::may_add_nodes(g, nodes, dead, k, Ok(done)),
        dead.contains(id.text()),
        !names_node(g.tree.entries, 2, id.text()),
    ensures
        !names_node(done.tree.entries, 2, id.text()),
    decreases nodes.len() - k,
{
    if 0 <= k < nodes.len() {
        let other = nodes[k].id;
        let entries = g.tree.entries;
        if dead.contains(other.text()) || projection::present_node(entries, other) is Some {
            lemma_added_nodes_name(g, nodes, dead, k + 1, done, id);
        } else {
            let b = nodes[k].blob->0;
            let shard = other.text().take(2);
            let file = projection::node_file(other);
            let grown = Growth {
                tree: TreeModel {
                    entries: layout::placed_node(entries, shard, file, b),
                    ..g.tree
                },
                emitted: g.emitted + b.body.len(),
            };
            let shards = layout::children(entries, "nodes"@);
            let files = layout::children(shards, shard);
            projection::lemma_node_files(other, id);
            projection::lemma_uuid_shard(other.value);
            reveal_strlit("nodes");
            reveal_strlit("by-commit");
            reveal_strlit("links");
            reveal_strlit("tombstones");
            reveal_strlit("events");
            reveal_strlit("ranges");
            assert("nodes"@[0] == 'n');
            assert("links"@[0] == 'l');
            assert(!tree::reserved_name("nodes"@));
            assert(shard.len() == 2);
            assert(!tree::reserved_name(shard));
            lemma_children_without(entries, "nodes"@, 2, id.text());
            lemma_children_without(shards, shard, 1, id.text());
            lemma_child_without(files, file, ObjectModel::Blob(b), 0, id.text());
            let files2 = layout::with_child(files, file, ObjectModel::Blob(b));
            lemma_child_without(shards, shard, ObjectModel::Tree(files2), 1, id.text());
            let shards2 = layout::with_child(shards, shard, ObjectModel::Tree(files2));
            lemma_child_without(entries, "nodes"@, ObjectModel::Tree(shards2), 2, id.text());
            lemma_added_nodes_name(grown, nodes, dead, k + 1, done, id);
        }
    }
}

/// The namespace has no shard of this name.
pub open spec fn no_shard<M>(ns: Option<NamespaceModel<M>>, name: Seq<char>) -> bool {
    ns is Some && (ns->0).kind == EntryKind::Tree ==> layout::find_shard((ns->0).shards, name, 0)
        is None
}

proof fn lemma_placed_elsewhere<M>(
    ns: Option<NamespaceModel<M>>,
    shard: Seq<char>,
    leaf: LeafModel<M>,
    name: Seq<char>,
)
    requires
        no_shard(ns, name),
        shard != name,
    ensures
        no_shard(Some(layout::placed(ns, shard, leaf)), name),
{
    let p = layout::placed(ns, shard, leaf);
    layout::lemma_find_shard(p.shards, name, 0);
    if ns is Some && (ns->0).kind == EntryKind::Tree {
        let shards = (ns->0).shards;
        layout::lemma_find_shard(shards, name, 0);
        layout::lemma_find_shard(shards, shard, 0);
        assert forall|i: int| 0 <= i < p.shards.len() implies (#[trigger] p.shards[i]).name != name by {
            if i < shards.len() {
                assert(shards[i].name != name);
            }
        }
    }
}

proof fn lemma_links_without(
    g: Growth,
    links: Seq<LocalLinkModel>,
    k: int,
    done: Growth,
    id: Seq<char>,
)
    requires
        projection::may_add_links(g, links, k, Ok(done)),
        0 <= k <= links.len(),
        no_shard(g.tree.links, id),
        forall|i: int| 0 <= i < links.len() ==> (#[trigger] links[i]).intended.interaction_id != id,
    ensures
        no_shard(done.tree.links, id),
    decreases links.len() - k,
{
    if k < links.len() {
        let want = links[k].intended;
        let file = want.git_commit_hash + ".json"@;
        if !derivation::automatic_link_type(want.link_type) || !derivation::is_commit_sha(
            want.git_commit_hash,
        ) || layout::lookup(g.tree.links, want.interaction_id, file) is Some {
            lemma_links_without(g, links, k + 1, done, id);
        } else {
            let leaf = LeafModel {
                name: file,
                kind: EntryKind::Blob,
                body: links[k].body,
                record: links[k].record,
            };
            let grown = Growth {
                tree: TreeModel {
                    links: Some(layout::placed(g.tree.links, want.interaction_id, leaf)),
                    ..g.tree
                },
                emitted: g.emitted + links[k].body.len(),
            };
            lemma_placed_elsewhere(g.tree.links, want.interaction_id, leaf, id);
            lemma_links_without(grown, links, k + 1, done, id);
        }
    }
}

/// No event of the namespace belongs to the interaction or names it among its
/// sources.
pub open spec fn no_event_of(ns: Option<NamespaceModel<EventModel>>, id: InteractionId) -> bool {
    ns is Some && (ns->0).kind == EntryKind::Tree ==> forall|s: int, j: int|
        0 <= s < (ns->0).shards.len() && 0 <= j < (ns->0).shards[s].leaves.len()
            ==> is_not_of(#[trigger] (ns->0).shards[s].leaves[j], id)
}

/// The event belongs to the interaction, or one of its sources is a link of it.
pub open spec fn involves(e: EventModel, id: InteractionId) -> bool {
    e.interaction_id == id || exists|j: int|
        0 <= j < e.sources.len() && derivation::refers_to(#[trigger] e.sources[j], id, false)
}

/// The entry is no event that involves the interaction.
pub open spec fn is_not_of(leaf: LeafModel<EventModel>, id: InteractionId) -> bool {
    leaf.record matches Some(e) ==> !involves(e, id)
}

proof fn lemma_placed_event(
    ns: Option<NamespaceModel<EventModel>>,
    shard: Seq<char>,
    leaf: LeafModel<EventModel>,
    id: InteractionId,
)
    requires
        no_event_of(ns, id),
        is_not_of(leaf, id),
    ensures
        no_event_of(Some(layout::placed(ns, shard, leaf)), id),
{
    let p = layout::placed(ns, shard, leaf);
    if ns is Some && (ns->0).kind == EntryKind::Tree {
        layout::lemma_find_shard((ns->0).shards, shard, 0);
    }
    assert forall|s: int, j: int|
        0 <= s < p.shards.len() && 0 <= j < p.shards[s].leaves.len() implies is_not_of(
        #[trigger] p.shards[s].leaves[j],
        id,
    ) by {
        if p.shards[s].leaves[j] != leaf {
            let shards = (ns->0).shards;
            assert(p.shards[s].leaves[j] == shards[s].leaves[j]);
        }
    }
}

proof fn lemma_events_without(
    g: Growth,
    list: Seq<LocalModel<EventModel>>,
    removed: Set<Seq<char>>,
    k: int,
    id: InteractionId,
)
    requires
        0 <= k <= list.len(),
        no_event_of(g.tree.events, id),
        forall|i: int|
            0 <= i < list.len() && involves((#[trigger] list[i]).record, id)
                ==> removed.contains(list[i].record.event_id),
    ensures
        projection::with_events(g, list, removed, k) matches Ok(n) ==> no_event_of(
            n.tree.events,
            id,
        ),
    decreases list.len() - k,
{
    if k < list.len() {
        let x = list[k].record;
        lemma_events_without(g, list, removed, k + 1, id);
        if !removed.contains(x.event_id) {
            let leaf = LeafModel {
                name: x.event_id + ".json"@,
                kind: EntryKind::Blob,
                body: list[k].body,
                record: Some(x),
            };
            let grown = Growth {
                tree: TreeModel {
                    events: Some(layout::placed(g.tree.events, x.event_id.take(2), leaf)),
                    ..g.tree
                },
                emitted: g.emitted + list[k].body.len(),
            };
            lemma_placed_event(g.tree.events, x.event_id.take(2), leaf, id);
            lemma_events_without(grown, list, removed, k + 1, id);
        }
    }
}

/// The interaction is no endpoint of the scan, and has no node in it.
spec fn unseen(s: EndpointScan, id: Seq<char>) -> bool {
    &&& !s.nodes.contains(id)
    &&& forall|i: int| 0 <= i < s.list.len() ==> (#[trigger] s.list[i]).1 != id
}

proof fn lemma_endpoint_unseen(s: EndpointScan, commit: Seq<char>, other: Seq<char>, id: Seq<char>)
    requires
        unseen(s, id),
        other != id,
    ensures
        unseen(projection::with_endpoint(s, commit, other), id),
{
}

proof fn lemma_node_links_unseen(
    other: Seq<char>,
    links: Seq<LinkModel>,
    j: int,
    s: EndpointScan,
    id: Seq<char>,
)
    requires
        unseen(s, id),
        other != id,
    ensures
        projection::scan_node_links(other, links, j, s) matches Ok(t) ==> unseen(t, id),
    decreases links.len() - j,
{
    if 0 <= j < links.len() {
        lemma_endpoint_unseen(s, links[j].git_commit_hash, other, id);
        lemma_node_links_unseen(
            other,
            links,
            j + 1,
            projection::with_endpoint(s, links[j].git_commit_hash, other),
            id,
        );
    }
}

proof fn lemma_refs_unseen(
    refs: Seq<(Seq<char>, BlobModel)>,
    k: int,
    s: EndpointScan,
    id: Seq<char>,
)
    requires
        unseen(s, id),
        0 <= k <= refs.len(),
        forall|i: int| 0 <= i < refs.len() ==> (#[trigger] refs[i]).0 != id,
    ensures
        projection::scan_refs(refs, k, s) matches Ok(t) ==> unseen(t, id),
    decreases refs.len() - k,
{
    if k < refs.len() && refs[k].1.node is Some {
        let n = refs[k].1.node->0;
        let other = n.interaction.id.text();
        if other == refs[k].0 {
            let seen = EndpointScan { nodes: s.nodes.insert(other), ..s };
            lemma_node_links_unseen(other, n.artifact_links, 0, seen, id);
            if projection::scan_node_links(other, n.artifact_links, 0, seen) is Ok {
                lemma_refs_unseen(
                    refs,
                    k + 1,
                    projection::scan_node_links(other, n.artifact_links, 0, seen)->Ok_0,
                    id,
                );
            }
        }
    }
}

proof fn lemma_records_unseen(
    records: Seq<LinkRecordModel>,
    k: int,
    s: EndpointScan,
    id: Seq<char>,
)
    requires
        unseen(s, id),
    ensures
        unseen(projection::scan_records(records, k, s), id),
    decreases records.len() - k,
{
    if 0 <= k < records.len() {
        let r = records[k];
        if s.nodes.contains(r.interaction_id) {
            lemma_endpoint_unseen(s, r.git_commit_hash, r.interaction_id, id);
            lemma_records_unseen(
                records,
                k + 1,
                projection::with_endpoint(s, r.git_commit_hash, r.interaction_id),
                id,
            );
        } else {
            lemma_records_unseen(records, k + 1, s, id);
        }
    }
}

proof fn lemma_scanned_events_unseen(
    events: Seq<EventModel>,
    k: int,
    s: EndpointScan,
    id: Seq<char>,
)
    requires
        unseen(s, id),
    ensures
        projection::scan_events(events, k, s) matches Ok(t) ==> unseen(t, id),
    decreases events.len() - k,
{
    if 0 <= k < events.len() && s.nodes.contains(events[k].interaction_id.text()) {
        let e = events[k];
        lemma_endpoint_unseen(s, e.target_commit, e.interaction_id.text(), id);
        lemma_scanned_events_unseen(
            events,
            k + 1,
            projection::with_endpoint(s, e.target_commit, e.interaction_id.text()),
            id,
        );
    }
}

proof fn lemma_endpoints_unseen(t: TreeModel, id: Seq<char>)
    requires
        projection::endpoints(t) is Ok,
        !names_node(t.entries, 2, id),
    ensures
        unseen(projection::endpoints(t)->Ok_0, id),
{
    let refs = tree::node_blobs(t.entries, 2, 0, Seq::empty())->Ok_0;
    lemma_blobs_without(t.entries, 2, 0, Seq::empty(), id);
    lemma_refs_unseen(refs, 0, projection::no_endpoints(), id);
    let s1 = projection::scan_refs(refs, 0, projection::no_endpoints())->Ok_0;
    let (records, total) = tree::read_links(t.links, 0, tree::MAX_SYNC_TOTAL_BYTES as int)->Ok_0;
    let scan = tree::read_events(t.events, total, tree::MAX_SYNC_TOTAL_BYTES as int)->Ok_0;
    lemma_records_unseen(records, 0, s1, id);
    lemma_scanned_events_unseen(scan.out, 0, projection::scan_records(records, 0, s1), id);
}

proof fn lemma_seed_events(base: Option<TreeModel>, ids: Seq<InteractionId>, seed: TreeModel, id: InteractionId)
    requires
        projection::seeded(base, ids) == Ok::<TreeModel, SyncError>(seed),
        ids.contains(id),
    ensures
        no_event_of(seed.events, id),
        no_shard(seed.links, id.text()),
{
    let start = match base {
        Some(held) => held,
        None => projection::empty_tree(),
    };
    redaction::law_pruning_forgets(start, ids, id);
    if start.events is Some && (start.events->0).kind == EntryKind::Tree {
        let shards = (seed.events->0).shards;
        assert forall|s: int, j: int|
            0 <= s < shards.len() && 0 <= j < shards[s].leaves.len() implies is_not_of(
            #[trigger] shards[s].leaves[j],
            id,
        ) by {
            redaction::law_pruned_events_forget(start.events->0, ids, id, s, j);
            let e = shards[s].leaves[j].record->0;
            if involves(e, id) {
                let x = choose|x: int|
                    0 <= x < e.sources.len() && derivation::refers_to(
                        #[trigger] e.sources[x],
                        id,
                        false,
                    );
                assert(derivation::refers_to(e.sources[x], id, true));
            }
        }
    }
}

/// Nothing of a suppressed interaction is published: the tree has no shard of its
/// links, no pointer to it in the index, and no event of it or with one of its
/// links among the sources, whatever the baseline held, where the store offers no
/// link of it and no file of it stands outside the places that interactions have.
pub proof fn law_suppressed_leaves_no_trace(
    base: Option<TreeModel>,
    ids: Seq<InteractionId>,
    seed: TreeModel,
    local: LocalProjectionModel,
    t: TreeModel,
    k: int,
    commit: Seq<char>,
)
    requires
        ids == projection::local_suppressed(local.tombstones),
        projection::seeded(base, ids) == Ok::<TreeModel, SyncError>(seed),
        projection::may_project(seed, local, Ok(t)),
        0 <= k < local.tombstones.len(),
        forall|i: int|
            0 <= i < local.links.len() ==> (#[trigger] local.links[i]).intended.interaction_id
                != local.tombstones[k].record.interaction_id.text(),
        !names_node(seed.entries, 2, local.tombstones[k].record.interaction_id.text()),
    ensures
        ({
            let id = local.tombstones[k].record.interaction_id;
            &&& !names_node(t.entries, 2, id.text())
            &&& no_shard(t.links, id.text())
            &&& layout::lookup(t.by_commit, commit, id.text()) is None
            &&& no_event_of(t.events, id)
        }),
{
    let id = local.tombstones[k].record.interaction_id;
    assert(ids[k] == id);
    assert(ids.contains(id));
    import::lemma_id_texts(ids, id);
    let (g, g1, g2) = projection::lemma_projection_steps(seed, local, t);
    lemma_seed_events(base, ids, seed, id);
    lemma_added_nodes_name(projection::ungrown(seed), local.nodes, import::id_texts(ids), 0, g, id);
    lemma_links_without(g1, local.links, 0, g2, id.text());
    let removed = projection::local_fallen(local.events, ids);
    let events = local.events.map_values(|x: LocalModel<EventModel>| x.record);
    assert forall|i: int|
        0 <= i < local.events.len() && involves(
            (#[trigger] local.events[i]).record,
            id,
        ) implies removed.contains(local.events[i].record.event_id) by {
        let e = local.events[i].record;
        assert(events[i] == e);
        if e.interaction_id != id {
            let j = choose|j: int|
                0 <= j < e.sources.len() && derivation::refers_to(#[trigger] e.sources[j], id, false);
            assert(derivation::refers_to(events[i].sources[j], ids[k], false));
        }
        assert(derivation::directly_suppressed(events[i], ids, false));
        assert(derivation::falls(events[i].event_id, events, ids, false));
    }
    lemma_events_without(g2, local.events, removed, 0, id);
    let g3 = projection::with_events(g2, local.events, removed, 0)->Ok_0;
    projection::lemma_ranges_keep(g3, local.ranges, 0);
    let g4 = projection::with_ranges(g3, local.ranges, 0)->Ok_0;
    let whole = TreeModel {
        events: projection::present(g4.tree.events),
        ranges: projection::present(g4.tree.ranges),
        ..g4.tree
    };
    assert(whole.entries == t.entries);
    lemma_endpoints_unseen(whole, id.text());
    projection::law_index_lists_endpoints(whole, commit, id.text());
    let list = (projection::endpoints(whole)->Ok_0).list;
    if list.contains((commit, id.text())) {
        let i = list.index_of((commit, id.text()));
        assert(list[i].1 == id.text());
    }
}

} // verus!
