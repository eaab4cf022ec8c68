//! What a projection publishes, an import reads back.

use crate::derivation;
use crate::fault::SyncError;
use crate::import;
use crate::import::{NodeScan, TreeModel};
use crate::layout;
use crate::models;
use crate::models::{EventModel, InteractionId, LinkModel, RangeModel, TombstoneModel};
use crate::projection;
use crate::projection::{Growth, LocalLinkModel, LocalModel, LocalNodeModel, LocalProjectionModel};
use crate::redaction;
use crate::tree;
use crate::tree::{
    BlobModel, EntryKind, EntryModel, EventScan, LeafModel, LinkRecordModel, NamespaceModel,
    NodeModel, ObjectModel, RangeScan, ShardModel, SyncReadLimits,
};
use vstd::prelude::*;

verus! {

/// The store offers this object for an interaction.
pub open spec fn offered(nodes: Seq<LocalNodeModel>, id: InteractionId, o: ObjectModel) -> bool {
    exists|i: int|
        0 <= i < nodes.len() && (#[trigger] nodes[i]).id == id && nodes[i].blob is Some && o
            == ObjectModel::Blob(nodes[i].blob->0)
}

pub proof fn lemma_node_placed(
    entries: Seq<EntryModel>,
    new: InteractionId,
    b: BlobModel,
    id: InteractionId,
)
    requires
        projection::present_node(entries, new) is None,
    ensures
        ({
            let after = layout::placed_node(
                entries,
                new.text().take(2),
                projection::node_file(new),
                b,
            );
            &&& projection::present_node(after, new) == Some(ObjectModel::Blob(b))
            &&& id.text() != new.text() ==> projection::present_node(after, id)
                == projection::present_node(entries, id)
        }),
{
    let shard = new.text().take(2);
    let file = projection::node_file(new);
    let shards = layout::children(entries, "nodes"@);
    let files = layout::children(shards, shard);
    let files1 = layout::with_child(files, file, ObjectModel::Blob(b));
    let shards1 = layout::with_child(shards, shard, ObjectModel::Tree(files1));
    reveal_strlit("nodes");
    projection::lemma_node_files(new, id);
    projection::lemma_node_files(id, new);
    projection::lemma_uuid_shard(new.value);
    assert(file.len() >= 36);
    layout::lemma_with_child(entries, "nodes"@, ObjectModel::Tree(shards1), file);
    layout::lemma_placed_node(entries, shard, file, b, shard, Seq::empty());
    if id.text() != new.text() {
        layout::lemma_placed_node(
            entries,
            shard,
            file,
            b,
            id.text().take(2),
            projection::node_file(id),
        );
    }
}

pub proof fn lemma_nodes_stay(
    g: Growth,
    nodes: Seq<LocalNodeModel>,
    dead: Set<Seq<char>>,
    k: int,
    done: Growth,
    id: InteractionId,
)
    requires
        projection::may_add_nodes(g, nodes, dead, k, Ok(done)),
    ensures
        projection::present_node(g.tree.entries, id) is Some ==> projection::present_node(
            done.tree.entries,
            id,
        ) == projection::present_node(g.tree.entries, id),
        done.tree.links == g.tree.links,
        done.tree.tombstones == g.tree.tombstones,
    decreases nodes.len() - k,
{
    if 0 <= k < nodes.len() {
        let new = nodes[k].id;
        if dead.contains(new.text()) || projection::present_node(g.tree.entries, new) is Some {
            lemma_nodes_stay(g, nodes, dead, k + 1, done, id);
        } else {
            let b = nodes[k].blob->0;
            let grown = Growth {
                tree: TreeModel {
                    entries: layout::placed_node(
                        g.tree.entries,
                        new.text().take(2),
                        projection::node_file(new),
                        b,
                    ),
                    ..g.tree
                },
                emitted: g.emitted + b.body.len(),
            };
            lemma_node_placed(g.tree.entries, new, b, id);
            if id.text() == new.text() {
                models::lemma_uuid_text_injective(id.value, new.value);
            }
            lemma_nodes_stay(grown, nodes, dead, k + 1, done, id);
        }
    }
}

proof fn lemma_node_added(
    g: Growth,
    nodes: Seq<LocalNodeModel>,
    dead: Set<Seq<char>>,
    k: int,
    done: Growth,
    j: int,
)
    requires
        0 <= k <= j < nodes.len(),
        projection::may_add_nodes(g, nodes, dead, k, Ok(done)),
        !dead.contains(nodes[j].id.text()),
    ensures
        match projection::present_node(g.tree.entries, nodes[j].id) {
            Some(o) => projection::present_node(done.tree.entries, nodes[j].id) == Some(o),
            None => projection::present_node(done.tree.entries, nodes[j].id) matches Some(o)
                && offered(nodes, nodes[j].id, o),
        },
    decreases nodes.len() - k,
{
    let id = nodes[j].id;
    let new = nodes[k].id;
    lemma_nodes_stay(g, nodes, dead, k, done, id);
    if projection::present_node(g.tree.entries, id) is None {
        if dead.contains(new.text()) || projection::present_node(g.tree.entries, new) is Some {
            lemma_node_added(g, nodes, dead, k + 1, done, j);
        } else {
            let b = nodes[k].blob->0;
            let grown = Growth {
                tree: TreeModel {
                    entries: layout::placed_node(
                        g.tree.entries,
                        new.text().take(2),
                        projection::node_file(new),
                        b,
                    ),
                    ..g.tree
                },
                emitted: g.emitted + b.body.len(),
            };
            lemma_node_placed(g.tree.entries, new, b, id);
            lemma_nodes_stay(grown, nodes, dead, k + 1, done, id);
            if id.text() == new.text() {
                models::lemma_uuid_text_injective(id.value, new.value);
                assert(offered(nodes, id, ObjectModel::Blob(b)));
            } else {
                lemma_node_added(grown, nodes, dead, k + 1, done, j);
            }
        }
    }
}

proof fn lemma_alive(ids: Seq<InteractionId>, id: InteractionId)
    requires
        !ids.contains(id),
    ensures
        !import::id_texts(ids).contains(id.text()),
{
    if import::id_texts(ids).contains(id.text()) {
        let texts = ids.map_values(|i: InteractionId| i.text());
        let k = texts.index_of(id.text());
        models::lemma_uuid_text_injective(ids[k].value, id.value);
        assert(ids[k] == id);
    }
}

/// Published interactions are immutable: whatever the seed holds for an
/// interaction, the projection holds for it too.
pub proof fn law_published_is_immutable(
    seed: TreeModel,
    local: LocalProjectionModel,
    t: TreeModel,
    id: InteractionId,
)
    requires
        projection::may_project(seed, local, Ok(t)),
        projection::present_node(seed.entries, id) is Some,
    ensures
        projection::present_node(t.entries, id) == projection::present_node(seed.entries, id),
{
    let (g, _, _) = projection::lemma_projection_steps(seed, local, t);
    let dead = import::id_texts(projection::local_suppressed(local.tombstones));
    lemma_nodes_stay(projection::ungrown(seed), local.nodes, dead, 0, g, id);
}

/// Every interaction that the store publishes and does not suppress is in the
/// projection: as the seed holds it, or else as the store offers it.
pub proof fn law_projection_publishes(
    seed: TreeModel,
    local: LocalProjectionModel,
    t: TreeModel,
    k: int,
)
    requires
        projection::may_project(seed, local, Ok(t)),
        0 <= k < local.nodes.len(),
        !projection::local_suppressed(local.tombstones).contains(local.nodes[k].id),
    ensures
        match projection::present_node(seed.entries, local.nodes[k].id) {
            Some(o) => projection::present_node(t.entries, local.nodes[k].id) == Some(o),
            None => projection::present_node(t.entries, local.nodes[k].id) matches Some(o)
                && offered(local.nodes, local.nodes[k].id, o),
        },
{
    let ids = projection::local_suppressed(local.tombstones);
    let (g, _, _) = projection::lemma_projection_steps(seed, local, t);
    lemma_alive(ids, local.nodes[k].id);
    lemma_node_added(
        projection::ungrown(seed),
        local.nodes,
        import::id_texts(ids),
        0,
        g,
        k,
    );
}

proof fn lemma_link_added(g: Growth, links: Seq<LocalLinkModel>, k: int, done: Growth, j: int)
    requires
        0 <= k <= j < links.len(),
        projection::may_add_links(g, links, k, Ok(done)),
        derivation::automatic_link_type(links[j].intended.link_type),
        derivation::is_commit_sha(links[j].intended.git_commit_hash),
    ensures
        ({
            let want = links[j].intended;
            layout::lookup(done.tree.links, want.interaction_id, want.git_commit_hash + ".json"@)
                matches Some(leaf) && (leaf.record == Some(want) || leaf.record == links[j].record)
        }),
    decreases links.len() - k,
{
    let want = links[k].intended;
    let file = want.git_commit_hash + ".json"@;
    let grown = grown_link(g, links[k]);
    if !derivation::automatic_link_type(want.link_type) || !derivation::is_commit_sha(
        want.git_commit_hash,
    ) {
        lemma_link_added(g, links, k + 1, done, j);
    } else if layout::lookup(g.tree.links, want.interaction_id, file) is Some {
        if k == j {
            lemma_links_stay(g, links, k + 1, done, want.interaction_id, file);
        } else {
            lemma_link_added(g, links, k + 1, done, j);
        }
    } else {
        layout::lemma_placed_found(
            g.tree.links,
            want.interaction_id,
            link_leaf_of(links[k]),
            want.interaction_id,
            file,
        );
        if k == j {
            lemma_links_stay(grown, links, k + 1, done, want.interaction_id, file);
        } else {
            lemma_link_added(grown, links, k + 1, done, j);
        }
    }
}

spec fn link_leaf_of(link: LocalLinkModel) -> LeafModel<LinkRecordModel> {
    LeafModel {
        name: link.intended.git_commit_hash + ".json"@,
        kind: EntryKind::Blob,
        body: link.body,
        record: link.record,
    }
}

spec fn grown_link(g: Growth, link: LocalLinkModel) -> Growth {
    Growth {
        tree: TreeModel {
            links: Some(
                layout::placed(g.tree.links, link.intended.interaction_id, link_leaf_of(link)),
            ),
            ..g.tree
        },
        emitted: g.emitted + link.body.len(),
    }
}

pub proof fn lemma_links_stay(
    g: Growth,
    links: Seq<LocalLinkModel>,
    k: int,
    done: Growth,
    shard: Seq<char>,
    file: Seq<char>,
)
    requires
        projection::may_add_links(g, links, k, Ok(done)),
        layout::lookup(g.tree.links, shard, file) is Some,
    ensures
        layout::lookup(done.tree.links, shard, file) == layout::lookup(g.tree.links, shard, file),
    decreases links.len() - k,
{
    if 0 <= k < links.len() {
        let want = links[k].intended;
        if !derivation::automatic_link_type(want.link_type) || !derivation::is_commit_sha(
            want.git_commit_hash,
        ) || layout::lookup(
            g.tree.links,
            want.interaction_id,
            want.git_commit_hash + ".json"@,
        ) is Some {
            lemma_links_stay(g, links, k + 1, done, shard, file);
        } else {
            layout::lemma_placed_found(
                g.tree.links,
                want.interaction_id,
                link_leaf_of(links[k]),
                shard,
                file,
            );
            lemma_links_stay(grown_link(g, links[k]), links, k + 1, done, shard, file);
        }
    }
}

/// Every automatic link that the store publishes has its record in the
/// projection: the very record, or the one that was serialized for it.
pub proof fn law_projection_publishes_links(
    seed: TreeModel,
    local: LocalProjectionModel,
    t: TreeModel,
    k: int,
)
    requires
        projection::may_project(seed, local, Ok(t)),
        0 <= k < local.links.len(),
        derivation::automatic_link_type(local.links[k].intended.link_type),
        derivation::is_commit_sha(local.links[k].intended.git_commit_hash),
    ensures
        ({
            let want = local.links[k].intended;
            layout::lookup(t.links, want.interaction_id, want.git_commit_hash + ".json"@) matches Some(
                leaf,
            ) && (leaf.record == Some(want) || leaf.record == local.links[k].record)
        }),
{
    let (_, g1, g2) = projection::lemma_projection_steps(seed, local, t);
    lemma_link_added(g1, local.links, 0, g2, k);
}

spec fn tombstone_leaf_of(x: LocalModel<TombstoneModel>) -> LeafModel<TombstoneModel> {
    LeafModel {
        name: projection::node_file(x.record.interaction_id),
        kind: EntryKind::Blob,
        body: x.body,
        record: Some(x.record),
    }
}

spec fn grown_tombstone(g: Growth, x: LocalModel<TombstoneModel>) -> Growth {
    Growth {
        tree: TreeModel {
            tombstones: Some(
                layout::placed(
                    g.tree.tombstones,
                    x.record.interaction_id.text().take(2),
                    tombstone_leaf_of(x),
                ),
            ),
            ..g.tree
        },
        emitted: g.emitted + x.body.len(),
    }
}

pub proof fn lemma_tombstones_stay(
    g: Growth,
    list: Seq<LocalModel<TombstoneModel>>,
    k: int,
    shard: Seq<char>,
    file: Seq<char>,
)
    requires
        projection::with_tombstones(g, list, k) is Ok,
        layout::lookup(g.tree.tombstones, shard, file) is Some,
    ensures
        layout::lookup(
            (projection::with_tombstones(g, list, k)->Ok_0).tree.tombstones,
            shard,
            file,
        ) == layout::lookup(g.tree.tombstones, shard, file),
    decreases list.len() - k,
{
    if 0 <= k < list.len() {
        let x = list[k];
        let at = x.record.interaction_id.text().take(2);
        if layout::lookup(
            g.tree.tombstones,
            at,
            projection::node_file(x.record.interaction_id),
        ) is Some {
            lemma_tombstones_stay(g, list, k + 1, shard, file);
        } else {
            layout::lemma_placed_found(g.tree.tombstones, at, tombstone_leaf_of(x), shard, file);
            lemma_tombstones_stay(grown_tombstone(g, x), list, k + 1, shard, file);
        }
    }
}

proof fn lemma_tombstone_added(g: Growth, list: Seq<LocalModel<TombstoneModel>>, k: int, j: int)
    requires
        0 <= k <= j < list.len(),
        projection::with_tombstones(g, list, k) is Ok,
    ensures
        ({
            let id = list[j].record.interaction_id;
            layout::lookup(
                (projection::with_tombstones(g, list, k)->Ok_0).tree.tombstones,
                id.text().take(2),
                projection::node_file(id),
            ) matches Some(leaf) && leaf.record == Some(list[j].record)
        }),
    decreases list.len() - k,
{
    let x = list[k];
    let at = x.record.interaction_id.text().take(2);
    let file = projection::node_file(x.record.interaction_id);
    let grown = grown_tombstone(g, x);
    if layout::lookup(g.tree.tombstones, at, file) is Some {
        if k == j {
            lemma_tombstones_stay(g, list, k + 1, at, file);
        } else {
            lemma_tombstone_added(g, list, k + 1, j);
        }
    } else {
        layout::lemma_placed_found(g.tree.tombstones, at, tombstone_leaf_of(x), at, file);
        if k == j {
            lemma_tombstones_stay(grown, list, k + 1, at, file);
        } else {
            lemma_tombstone_added(grown, list, k + 1, j);
        }
    }
}

/// Every tombstone that the store publishes is in the projection.
pub proof fn law_projection_publishes_tombstones(
    seed: TreeModel,
    local: LocalProjectionModel,
    t: TreeModel,
    k: int,
)
    requires
        projection::may_project(seed, local, Ok(t)),
        0 <= k < local.tombstones.len(),
    ensures
        ({
            let id = local.tombstones[k].record.interaction_id;
            layout::lookup(t.tombstones, id.text().take(2), projection::node_file(id)) matches Some(
                leaf,
            ) && leaf.record == Some(local.tombstones[k].record)
        }),
{
    let (g, _, _) = projection::lemma_projection_steps(seed, local, t);
    lemma_tombstone_added(g, local.tombstones, 0, k);
}

spec fn event_leaf_of(x: LocalModel<EventModel>) -> LeafModel<EventModel> {
    LeafModel {
        name: x.record.event_id + ".json"@,
        kind: EntryKind::Blob,
        body: x.body,
        record: Some(x.record),
    }
}

spec fn grown_event(g: Growth, x: LocalModel<EventModel>) -> Growth {
    Growth {
        tree: TreeModel {
            events: Some(
                layout::placed(g.tree.events, x.record.event_id.take(2), event_leaf_of(x)),
            ),
            ..g.tree
        },
        emitted: g.emitted + x.body.len(),
    }
}

pub proof fn lemma_events_stay(
    g: Growth,
    list: Seq<LocalModel<EventModel>>,
    removed: Set<Seq<char>>,
    k: int,
    shard: Seq<char>,
    file: Seq<char>,
)
    requires
        projection::with_events(g, list, removed, k) is Ok,
        layout::lookup(g.tree.events, shard, file) is Some,
    ensures
        layout::lookup(
            (projection::with_events(g, list, removed, k)->Ok_0).tree.events,
            shard,
            file,
        ) == layout::lookup(g.tree.events, shard, file),
    decreases list.len() - k,
{
    if 0 <= k < list.len() {
        let x = list[k];
        let at = x.record.event_id.take(2);
        if removed.contains(x.record.event_id) || layout::lookup(
            g.tree.events,
            at,
            x.record.event_id + ".json"@,
        ) is Some {
            lemma_events_stay(g, list, removed, k + 1, shard, file);
        } else {
            layout::lemma_placed_found(g.tree.events, at, event_leaf_of(x), shard, file);
            lemma_events_stay(grown_event(g, x), list, removed, k + 1, shard, file);
        }
    }
}

proof fn lemma_event_added(
    g: Growth,
    list: Seq<LocalModel<EventModel>>,
    removed: Set<Seq<char>>,
    k: int,
    j: int,
)
    requires
        0 <= k <= j < list.len(),
        projection::with_events(g, list, removed, k) is Ok,
        !removed.contains(list[j].record.event_id),
    ensures
        ({
            let id = list[j].record.event_id;
            layout::lookup(
                (projection::with_events(g, list, removed, k)->Ok_0).tree.events,
                id.take(2),
                id + ".json"@,
            ) matches Some(leaf) && leaf.kind == EntryKind::Blob && leaf.body == list[j].body
        }),
    decreases list.len() - k,
{
    let x = list[k];
    let at = x.record.event_id.take(2);
    let file = x.record.event_id + ".json"@;
    let grown = grown_event(g, x);
    if removed.contains(x.record.event_id) {
        lemma_event_added(g, list, removed, k + 1, j);
    } else if layout::lookup(g.tree.events, at, file) is Some {
        if k == j {
            lemma_events_stay(g, list, removed, k + 1, at, file);
        } else {
            lemma_event_added(g, list, removed, k + 1, j);
        }
    } else {
        layout::lemma_placed_found(g.tree.events, at, event_leaf_of(x), at, file);
        if k == j {
            lemma_events_stay(grown, list, removed, k + 1, at, file);
        } else {
            lemma_event_added(grown, list, removed, k + 1, j);
        }
    }
}

/// Every event that the store publishes is in the projection, byte for byte,
/// unless it falls with a suppressed interaction.
pub proof fn law_projection_publishes_events(
    seed: TreeModel,
    local: LocalProjectionModel,
    t: TreeModel,
    k: int,
)
    requires
        projection::may_project(seed, local, Ok(t)),
        0 <= k < local.events.len(),
        !projection::local_fallen(
            local.events,
            projection::local_suppressed(local.tombstones),
        ).contains(local.events[k].record.event_id),
    ensures
        ({
            let id = local.events[k].record.event_id;
            layout::lookup(t.events, id.take(2), id + ".json"@) matches Some(leaf) && leaf.kind
                == EntryKind::Blob && leaf.body == local.events[k].body
        }),
{
    let (_, _, g2) = projection::lemma_projection_steps(seed, local, t);
    let removed = projection::local_fallen(
        local.events,
        projection::local_suppressed(local.tombstones),
    );
    lemma_event_added(g2, local.events, removed, 0, k);
    let g3 = projection::with_events(g2, local.events, removed, 0)->Ok_0;
    projection::lemma_ranges_keep(g3, local.ranges, 0);
}

spec fn range_leaf_of(x: LocalModel<RangeModel>) -> LeafModel<RangeModel> {
    LeafModel {
        name: x.record.range_id + ".json"@,
        kind: EntryKind::Blob,
        body: x.body,
        record: Some(x.record),
    }
}

spec fn grown_range(g: Growth, x: LocalModel<RangeModel>) -> Growth {
    Growth {
        tree: TreeModel {
            ranges: Some(
                layout::placed(g.tree.ranges, x.record.range_id.take(2), range_leaf_of(x)),
            ),
            ..g.tree
        },
        emitted: g.emitted + x.body.len(),
    }
}

proof fn lemma_ranges_stay(
    g: Growth,
    list: Seq<LocalModel<RangeModel>>,
    k: int,
    shard: Seq<char>,
    file: Seq<char>,
)
    requires
        projection::with_ranges(g, list, k) is Ok,
        layout::lookup(g.tree.ranges, shard, file) is Some,
    ensures
        layout::lookup((projection::with_ranges(g, list, k)->Ok_0).tree.ranges, shard, file)
            == layout::lookup(g.tree.ranges, shard, file),
    decreases list.len() - k,
{
    if 0 <= k < list.len() {
        let x = list[k];
        let at = x.record.range_id.take(2);
        if layout::lookup(g.tree.ranges, at, x.record.range_id + ".json"@) is Some {
            lemma_ranges_stay(g, list, k + 1, shard, file);
        } else {
            layout::lemma_placed_found(g.tree.ranges, at, range_leaf_of(x), shard, file);
            lemma_ranges_stay(grown_range(g, x), list, k + 1, shard, file);
        }
    }
}

proof fn lemma_range_added(g: Growth, list: Seq<LocalModel<RangeModel>>, k: int, j: int)
    requires
        0 <= k <= j < list.len(),
        projection::with_ranges(g, list, k) is Ok,
    ensures
        ({
            let id = list[j].record.range_id;
            layout::lookup(
                (projection::with_ranges(g, list, k)->Ok_0).tree.ranges,
                id.take(2),
                id + ".json"@,
            ) matches Some(leaf) && leaf.kind == EntryKind::Blob && leaf.body == list[j].body
        }),
    decreases list.len() - k,
{
    let x = list[k];
    let at = x.record.range_id.take(2);
    let file = x.record.range_id + ".json"@;
    let grown = grown_range(g, x);
    if layout::lookup(g.tree.ranges, at, file) is Some {
        if k == j {
            lemma_ranges_stay(g, list, k + 1, at, file);
        } else {
            lemma_range_added(g, list, k + 1, j);
        }
    } else {
        layout::lemma_placed_found(g.tree.ranges, at, range_leaf_of(x), at, file);
        if k == j {
            lemma_ranges_stay(grown, list, k + 1, at, file);
        } else {
            lemma_range_added(grown, list, k + 1, j);
        }
    }
}

/// Every range that the store publishes is in the projection, byte for byte.
pub proof fn law_projection_publishes_ranges(
    seed: TreeModel,
    local: LocalProjectionModel,
    t: TreeModel,
    k: int,
)
    requires
        projection::may_project(seed, local, Ok(t)),
        0 <= k < local.ranges.len(),
    ensures
        ({
            let id = local.ranges[k].record.range_id;
            layout::lookup(t.ranges, id.take(2), id + ".json"@) matches Some(leaf) && leaf.kind
                == EntryKind::Blob && leaf.body == local.ranges[k].body
        }),
{
    let (_, _, g2) = projection::lemma_projection_steps(seed, local, t);
    let removed = projection::local_fallen(
        local.events,
        projection::local_suppressed(local.tombstones),
    );
    let g3 = projection::with_events(g2, local.events, removed, 0)->Ok_0;
    lemma_range_added(g3, local.ranges, 0, k);
}

proof fn lemma_blobs_grow(
    entries: Seq<EntryModel>,
    depth: nat,
    i: int,
    found: Seq<(Seq<char>, BlobModel)>,
    x: (Seq<char>, BlobModel),
)
    requires
        found.contains(x),
    ensures
        tree::node_blobs(entries, depth, i, found) matches Ok(out) ==> out.contains(x),
    decreases depth, entries.len() - i,
{
    if 0 <= i < entries.len() && entries[i].name is Some {
        let name = entries[i].name->0;
        lemma_blobs_grow(entries, depth, i + 1, found, x);
        match entries[i].object {
            ObjectModel::Blob(blob) => {
                if tree::json_stem(name) is Some {
                    let next = found.push((tree::json_stem(name)->0, blob));
                    let k = found.index_of(x);
                    assert(next[k] == x);
                    lemma_blobs_grow(entries, depth, i + 1, next, x);
                }
            },
            ObjectModel::Tree(sub) => {
                if depth > 0 {
                    lemma_blobs_grow(sub, (depth - 1) as nat, 0, found, x);
                    if let Ok(next) = tree::node_blobs(sub, (depth - 1) as nat, 0, found) {
                        lemma_blobs_grow(entries, depth, i + 1, next, x);
                    }
                }
            },
            ObjectModel::Other => {},
        }
    }
}

/// An entry at position `j` that adds `x` wherever a search passes it.
spec fn adds(
    entries: Seq<EntryModel>,
    depth: nat,
    j: int,
    x: (Seq<char>, BlobModel),
) -> bool {
    match entries[j].object {
        ObjectModel::Blob(blob) => entries[j].name matches Some(name) && tree::json_stem(name)
            == Some(x.0) && blob == x.1,
        ObjectModel::Tree(sub) => {
            &&& depth > 0
            &&& entries[j].name matches Some(name) && !tree::reserved_name(name)
            &&& forall|f: Seq<(Seq<char>, BlobModel)>| #[trigger]
                tree::node_blobs(sub, (depth - 1) as nat, 0, f) matches Ok(o) ==> o.contains(x)
        },
        ObjectModel::Other => false,
    }
}

proof fn lemma_blob_found(
    entries: Seq<EntryModel>,
    depth: nat,
    i: int,
    found: Seq<(Seq<char>, BlobModel)>,
    j: int,
    x: (Seq<char>, BlobModel),
)
    requires
        0 <= i <= j < entries.len(),
        adds(entries, depth, j, x),
    ensures
        tree::node_blobs(entries, depth, i, found) matches Ok(out) ==> out.contains(x),
    decreases entries.len() - i,
{
    if entries[i].name is Some {
        let name = entries[i].name->0;
        if i == j {
            match entries[i].object {
                ObjectModel::Blob(blob) => {
                    let next = found.push((tree::json_stem(name)->0, blob));
                    assert(next[found.len() as int] == x);
                    lemma_blobs_grow(entries, depth, i + 1, next, x);
                },
                ObjectModel::Tree(sub) => {
                    if let Ok(next) = tree::node_blobs(sub, (depth - 1) as nat, 0, found) {
                        lemma_blobs_grow(entries, depth, i + 1, next, x);
                    }
                },
                ObjectModel::Other => {},
            }
        } else {
            lemma_blob_found(entries, depth, i + 1, found, j, x);
            match entries[i].object {
                ObjectModel::Blob(blob) => {
                    if tree::json_stem(name) is Some {
                        let next = found.push((tree::json_stem(name)->0, blob));
                        lemma_blob_found(entries, depth, i + 1, next, j, x);
                    }
                },
                ObjectModel::Tree(sub) => {
                    if depth > 0 {
                        if let Ok(next) = tree::node_blobs(sub, (depth - 1) as nat, 0, found) {
                            lemma_blob_found(entries, depth, i + 1, next, j, x);
                        }
                    }
                },
                ObjectModel::Other => {},
            }
        }
    }
}

proof fn lemma_present_found(entries: Seq<EntryModel>, id: InteractionId, b: BlobModel)
    requires
        projection::present_node(entries, id) == Some(ObjectModel::Blob(b)),
    ensures
        tree::node_blobs(entries, 2, 0, Seq::empty()) matches Ok(refs) ==> refs.contains(
            (id.text(), b),
        ),
{
    let x = (id.text(), b);
    let file = projection::node_file(id);
    projection::lemma_node_files(id, id);
    layout::lemma_find_entry(entries, file, 0);
    match layout::find_entry(entries, file, 0) {
        Some(k) => {
            lemma_blob_found(entries, 2, 0, Seq::empty(), k, x);
        },
        None => {
            let shard = id.text().take(2);
            let shards = layout::children(entries, "nodes"@);
            let files = layout::children(shards, shard);
            layout::lemma_find_entry(files, file, 0);
            let k2 = layout::find_entry(files, file, 0)->0;
            layout::lemma_find_entry(shards, shard, 0);
            let k1 = layout::find_entry(shards, shard, 0)->0;
            layout::lemma_find_entry(entries, "nodes"@, 0);
            let k0 = layout::find_entry(entries, "nodes"@, 0)->0;
            reveal_strlit("nodes");
            reveal_strlit("by-commit");
            reveal_strlit("links");
            reveal_strlit("tombstones");
            reveal_strlit("events");
            reveal_strlit("ranges");
            projection::lemma_uuid_shard(id.value);
            assert(shard.len() == 2);
            assert("nodes"@[0] == 'n' && "links"@[0] == 'l');
            assert(!tree::reserved_name("nodes"@));
            assert forall|f: Seq<(Seq<char>, BlobModel)>| #[trigger]
                tree::node_blobs(files, 0, 0, f) matches Ok(o) ==> o.contains(x) by {
                lemma_blob_found(files, 0, 0, f, k2, x);
            }
            assert(adds(shards, 1, k1, x));
            assert forall|f: Seq<(Seq<char>, BlobModel)>| #[trigger]
                tree::node_blobs(shards, 1, 0, f) matches Ok(o) ==> o.contains(x) by {
                lemma_blob_found(shards, 1, 0, f, k1, x);
            }
            assert(adds(entries, 2, k0, x));
            lemma_blob_found(entries, 2, 0, Seq::empty(), k0, x);
        },
    }
}

proof fn lemma_found_by_text(nodes: Seq<NodeModel>, id: Seq<char>, k: int)
    requires
        0 <= k,
        import::find_by_text(nodes, id, k) is Some,
    ensures
        nodes.contains(import::find_by_text(nodes, id, k)->0),
    decreases nodes.len() - k,
{
    if nodes[k].interaction.id.text() != id {
        lemma_found_by_text(nodes, id, k + 1);
    }
}

/// Whatever was read and is not in the store is among the new nodes.
spec fn new_ones_kept(st: NodeScan, existing: Set<Seq<char>>) -> bool {
    forall|n: NodeModel| #[trigger]
        st.wire.contains(n) && !existing.contains(n.interaction.id.text()) ==> st.fresh.contains(n)
}

proof fn lemma_step_keeps(
    id: Seq<char>,
    blob: BlobModel,
    st: NodeScan,
    existing: Set<Seq<char>>,
    max: int,
)
    requires
        import::node_step(id, blob, st, existing, max) is Ok,
        new_ones_kept(st, existing),
    ensures
        ({
            let next = import::node_step(id, blob, st, existing, max)->Ok_0;
            &&& new_ones_kept(next, existing)
            &&& forall|n: NodeModel| #[trigger] st.wire.contains(n) ==> next.wire.contains(n)
            &&& blob.node is Some
            &&& (blob.node->0).interaction.id.text() == id
            &&& next.wire.contains(blob.node->0)
        }),
{
    let node = blob.node->0;
    let next = import::node_step(id, blob, st, existing, max)->Ok_0;
    if import::find_by_text(st.wire, id, 0) is Some {
        lemma_found_by_text(st.wire, id, 0);
    } else {
        assert(next.wire == st.wire.push(node));
        assert(next.wire[st.wire.len() as int] == node);
        assert forall|n: NodeModel| #[trigger] st.wire.contains(n) implies next.wire.contains(n) by {
            let k = st.wire.index_of(n);
            assert(next.wire[k] == n);
        }
        assert forall|n: NodeModel| #[trigger]
            next.wire.contains(n) && !existing.contains(n.interaction.id.text()) implies next.fresh.contains(
            n,
        ) by {
            let k = next.wire.index_of(n);
            if k < st.wire.len() {
                assert(st.wire[k] == n);
                assert(st.wire.contains(n));
                let j = st.fresh.index_of(n);
                assert(next.fresh[j] == n);
            } else {
                assert(next.fresh[st.fresh.len() as int] == n);
            }
        }
    }
}

proof fn lemma_scan_reads(
    refs: Seq<(Seq<char>, BlobModel)>,
    i: int,
    dead: Set<Seq<char>>,
    existing: Set<Seq<char>>,
    st: NodeScan,
    max: int,
    p: int,
)
    requires
        0 <= i,
        0 <= p < refs.len(),
        !dead.contains(refs[p].0),
        import::scan_nodes(refs, i, dead, existing, st, max) is Ok,
        new_ones_kept(st, existing),
        p < i ==> refs[p].1.node is Some && (refs[p].1.node->0).interaction.id.text() == refs[p].0
            && st.wire.contains(refs[p].1.node->0),
    ensures
        ({
            let out = import::scan_nodes(refs, i, dead, existing, st, max)->Ok_0;
            &&& new_ones_kept(out, existing)
            &&& refs[p].1.node is Some
            &&& (refs[p].1.node->0).interaction.id.text() == refs[p].0
            &&& out.wire.contains(refs[p].1.node->0)
        }),
    decreases refs.len() - i,
{
    if i < refs.len() {
        if dead.contains(refs[i].0) {
            lemma_scan_reads(refs, i + 1, dead, existing, st, max, p);
        } else {
            lemma_step_keeps(refs[i].0, refs[i].1, st, existing, max);
            let next = import::node_step(refs[i].0, refs[i].1, st, existing, max)->Ok_0;
            lemma_scan_reads(refs, i + 1, dead, existing, next, max, p);
        }
    }
}

/// Whatever a tree holds for an interaction is imported, unless a tombstone of
/// the tree suppresses the interaction or the store has it already.
pub proof fn law_published_is_imported(
    snap: TreeModel,
    existing: Set<Seq<char>>,
    stored: Seq<LinkModel>,
    limits: SyncReadLimits,
    id: InteractionId,
    b: BlobModel,
)
    requires
        import::accepted(snap, existing, stored, limits) is Ok,
        projection::present_node(snap.entries, id) == Some(ObjectModel::Blob(b)),
        !import::suppressed_ids(
            (import::accepted(snap, existing, stored, limits)->Ok_0).tombstones,
        ).contains(id),
        !existing.contains(id.text()),
    ensures
        ({
            let m = import::accepted(snap, existing, stored, limits)->Ok_0;
            let dead = import::id_texts(import::suppressed_ids(m.tombstones));
            &&& b.node is Some
            &&& (b.node->0).interaction.id == id
            &&& m.nodes.contains(import::detached(b.node->0, dead))
        }),
{
    let m = import::accepted(snap, existing, stored, limits)->Ok_0;
    let rc = import::received(snap, limits)->Ok_0;
    let ids = import::suppressed_ids(rc.tombstones);
    let dead = import::id_texts(ids);
    let max = limits.max_total_bytes as int;
    let st = import::scan_nodes(rc.refs, 0, dead, existing, import::scan_start(), max)->Ok_0;
    lemma_present_found(snap.entries, id, b);
    lemma_alive(ids, id);
    let p = rc.refs.index_of((id.text(), b));
    lemma_scan_reads(rc.refs, 0, dead, existing, import::scan_start(), max, p);
    let node = b.node->0;
    models::lemma_uuid_text_injective(node.interaction.id.value, id.value);
    assert(st.wire.contains(node));
    let k = st.fresh.index_of(node);
    assert(m.nodes[k] == import::detached(node, dead));
}

proof fn lemma_links_read(
    interaction: Seq<char>,
    leaves: Seq<LeafModel<LinkRecordModel>>,
    i: int,
    out: Seq<LinkRecordModel>,
    total: int,
    max: int,
    x: LinkRecordModel,
)
    requires
        tree::link_leaves(interaction, leaves, i, out, total, max) is Ok,
        out.contains(x),
    ensures
        (tree::link_leaves(interaction, leaves, i, out, total, max)->Ok_0).0.contains(x),
    decreases leaves.len() - i,
{
    if 0 <= i < leaves.len() {
        let (o, t) = tree::link_leaf(interaction, leaves[i], out, total, max)->Ok_0;
        let k = out.index_of(x);
        assert(o[k] == x);
        lemma_links_read(interaction, leaves, i + 1, o, t, max, x);
    }
}

proof fn lemma_link_read(
    interaction: Seq<char>,
    leaves: Seq<LeafModel<LinkRecordModel>>,
    i: int,
    out: Seq<LinkRecordModel>,
    total: int,
    max: int,
    j: int,
)
    requires
        0 <= i <= j < leaves.len(),
        tree::link_leaves(interaction, leaves, i, out, total, max) is Ok,
    ensures
        leaves[j].record is Some,
        (leaves[j].record->0).interaction_id == interaction,
        (tree::link_leaves(interaction, leaves, i, out, total, max)->Ok_0).0.contains(
            leaves[j].record->0,
        ),
    decreases leaves.len() - i,
{
    let (o, t) = tree::link_leaf(interaction, leaves[i], out, total, max)->Ok_0;
    if i == j {
        assert(o[out.len() as int] == leaves[j].record->0);
        lemma_links_read(interaction, leaves, i + 1, o, t, max, leaves[j].record->0);
    } else {
        lemma_link_read(interaction, leaves, i + 1, o, t, max, j);
    }
}

proof fn lemma_shards_read(
    shards: Seq<ShardModel<LinkRecordModel>>,
    k: int,
    out: Seq<LinkRecordModel>,
    total: int,
    max: int,
    x: LinkRecordModel,
)
    requires
        tree::link_shards(shards, k, out, total, max) is Ok,
        out.contains(x),
    ensures
        (tree::link_shards(shards, k, out, total, max)->Ok_0).0.contains(x),
    decreases shards.len() - k,
{
    if 0 <= k < shards.len() {
        let (o, t) = tree::link_leaves(
            shards[k].name,
            shards[k].leaves,
            0,
            out,
            total,
            max,
        )->Ok_0;
        lemma_links_read(shards[k].name, shards[k].leaves, 0, out, total, max, x);
        lemma_shards_read(shards, k + 1, o, t, max, x);
    }
}

proof fn lemma_shard_read(
    shards: Seq<ShardModel<LinkRecordModel>>,
    k: int,
    out: Seq<LinkRecordModel>,
    total: int,
    max: int,
    a: int,
    j: int,
)
    requires
        0 <= k <= a < shards.len(),
        0 <= j < shards[a].leaves.len(),
        tree::link_shards(shards, k, out, total, max) is Ok,
    ensures
        shards[a].leaves[j].record is Some,
        (shards[a].leaves[j].record->0).interaction_id == shards[a].name,
        (tree::link_shards(shards, k, out, total, max)->Ok_0).0.contains(
            shards[a].leaves[j].record->0,
        ),
    decreases shards.len() - k,
{
    let (o, t) = tree::link_leaves(shards[k].name, shards[k].leaves, 0, out, total, max)->Ok_0;
    if k == a {
        lemma_link_read(shards[k].name, shards[k].leaves, 0, out, total, max, j);
        lemma_shards_read(shards, k + 1, o, t, max, shards[a].leaves[j].record->0);
    } else {
        lemma_shard_read(shards, k + 1, o, t, max, a, j);
    }
}

/// Whatever link record a tree holds for an interaction is imported, unless a
/// tombstone of the tree suppresses the interaction.
pub proof fn law_published_link_is_imported(
    snap: TreeModel,
    existing: Set<Seq<char>>,
    stored: Seq<LinkModel>,
    limits: SyncReadLimits,
    interaction: Seq<char>,
    file: Seq<char>,
)
    requires
        import::accepted(snap, existing, stored, limits) is Ok,
        layout::lookup(snap.links, interaction, file) is Some,
        !import::id_texts(
            import::suppressed_ids(
                (import::accepted(snap, existing, stored, limits)->Ok_0).tombstones,
            ),
        ).contains(interaction),
    ensures
        ({
            let m = import::accepted(snap, existing, stored, limits)->Ok_0;
            layout::lookup(snap.links, interaction, file)->0.record matches Some(record)
                && record.interaction_id == interaction && m.records.contains(record)
        }),
{
    let m = import::accepted(snap, existing, stored, limits)->Ok_0;
    let rc = import::received(snap, limits)->Ok_0;
    let dead = import::id_texts(import::suppressed_ids(rc.tombstones));
    let max = limits.max_total_bytes as int;
    let st = import::scan_nodes(rc.refs, 0, dead, existing, import::scan_start(), max)->Ok_0;
    let all = tree::read_links(snap.links, st.total, max)->Ok_0;
    let shards = (snap.links->0).shards;
    layout::lemma_find_shard(shards, interaction, 0);
    let a = layout::find_shard(shards, interaction, 0)->0;
    layout::lemma_find_leaf(shards[a].leaves, file, 0);
    let j = layout::find_leaf(shards[a].leaves, file, 0)->0;
    lemma_shard_read(shards, 0, Seq::empty(), st.total, max, a, j);
    let record = shards[a].leaves[j].record->0;
    let keep = |r: LinkRecordModel| !dead.contains(r.interaction_id);
    all.0.lemma_filter_contains(keep, all.0.index_of(record));
}

/// An event of this identity is in the list.
pub open spec fn event_held(events: Seq<EventModel>, id: Seq<char>) -> bool {
    exists|i: int| 0 <= i < events.len() && (#[trigger] events[i]).event_id == id
}

spec fn events_noted(st: EventScan) -> bool {
    forall|id: Seq<char>| #[trigger] st.seen.contains_key(id) ==> event_held(st.out, id)
}

proof fn lemma_event_read(
    shard: Seq<char>,
    leaf: LeafModel<EventModel>,
    st: EventScan,
    max: int,
    id: Seq<char>,
)
    requires
        events_noted(st),
        tree::event_leaf(shard, leaf, st, max) is Ok,
    ensures
        ({
            let next = tree::event_leaf(shard, leaf, st, max)->Ok_0;
            &&& events_noted(next)
            &&& leaf.record is Some
            &&& event_held(next.out, (leaf.record->0).event_id)
            &&& event_held(st.out, id) ==> event_held(next.out, id)
        }),
{
    let next = tree::event_leaf(shard, leaf, st, max)->Ok_0;
    let x = leaf.record->0;
    if next.out != st.out {
        assert(next.out[st.out.len() as int].event_id == x.event_id);
        assert forall|y: Seq<char>| event_held(st.out, y) implies event_held(next.out, y) by {
            let i = choose|i: int| 0 <= i < st.out.len() && (#[trigger] st.out[i]).event_id == y;
            assert(next.out[i].event_id == y);
        }
        assert forall|y: Seq<char>| #[trigger] next.seen.contains_key(y) implies event_held(
            next.out,
            y,
        ) by {
            if y != x.event_id {
                assert(st.seen.contains_key(y));
            }
        }
    } else if !st.seen.contains_key(x.event_id) {
        assert(next.out.len() == st.out.len() + 1);
    }
}

proof fn lemma_event_leaves_read(
    shard: Seq<char>,
    leaves: Seq<LeafModel<EventModel>>,
    i: int,
    st: EventScan,
    max: int,
    j: int,
    id: Seq<char>,
)
    requires
        0 <= i <= leaves.len(),
        events_noted(st),
        tree::event_leaves(shard, leaves, i, st, max) is Ok,
    ensures
        ({
            let done = tree::event_leaves(shard, leaves, i, st, max)->Ok_0;
            &&& events_noted(done)
            &&& i <= j < leaves.len() ==> leaves[j].record is Some && event_held(
                done.out,
                (leaves[j].record->0).event_id,
            )
            &&& event_held(st.out, id) ==> event_held(done.out, id)
        }),
    decreases leaves.len() - i,
{
    if i < leaves.len() {
        let next = tree::event_leaf(shard, leaves[i], st, max)->Ok_0;
        lemma_event_read(shard, leaves[i], st, max, id);
        lemma_event_leaves_read(shard, leaves, i + 1, next, max, j, id);
        if i == j {
            lemma_event_leaves_read(
                shard,
                leaves,
                i + 1,
                next,
                max,
                j,
                (leaves[j].record->0).event_id,
            );
        }
    }
}

proof fn lemma_event_shards_read(
    shards: Seq<ShardModel<EventModel>>,
    k: int,
    st: EventScan,
    max: int,
    a: int,
    j: int,
    id: Seq<char>,
)
    requires
        0 <= k <= shards.len(),
        events_noted(st),
        tree::event_shards(shards, k, st, max) is Ok,
    ensures
        ({
            let done = tree::event_shards(shards, k, st, max)->Ok_0;
            &&& k <= a < shards.len() && 0 <= j < shards[a].leaves.len()
                ==> shards[a].leaves[j].record is Some && event_held(
                done.out,
                (shards[a].leaves[j].record->0).event_id,
            )
            &&& event_held(st.out, id) ==> event_held(done.out, id)
        }),
    decreases shards.len() - k,
{
    if k < shards.len() {
        let next = tree::event_leaves(shards[k].name, shards[k].leaves, 0, st, max)->Ok_0;
        lemma_event_leaves_read(shards[k].name, shards[k].leaves, 0, st, max, j, id);
        lemma_event_shards_read(shards, k + 1, next, max, a, j, id);
        if k == a && 0 <= j < shards[a].leaves.len() {
            lemma_event_shards_read(
                shards,
                k + 1,
                next,
                max,
                a,
                j,
                (shards[a].leaves[j].record->0).event_id,
            );
        }
    }
}

proof fn lemma_event_found(
    ns: Option<NamespaceModel<EventModel>>,
    total: int,
    max: int,
    shard: Seq<char>,
    file: Seq<char>,
)
    requires
        tree::read_events(ns, total, max) is Ok,
        layout::lookup(ns, shard, file) is Some,
    ensures
        layout::lookup(ns, shard, file)->0.record matches Some(x) && event_held(
            (tree::read_events(ns, total, max)->Ok_0).out,
            x.event_id,
        ),
{
    let shards = (ns->0).shards;
    layout::lemma_find_shard(shards, shard, 0);
    let a = layout::find_shard(shards, shard, 0)->0;
    layout::lemma_find_leaf(shards[a].leaves, file, 0);
    let j = layout::find_leaf(shards[a].leaves, file, 0)->0;
    let start = EventScan { out: Seq::empty(), seen: Map::empty(), total };
    lemma_event_shards_read(shards, 0, start, max, a, j, shard);
}

proof fn lemma_survivor_held(all: Seq<EventModel>, ids: Seq<InteractionId>, id: Seq<char>)
    requires
        event_held(all, id),
        !derivation::falls(id, all, ids, false),
    ensures
        event_held(derivation::survivors(all, ids, false), id),
{
    let keep = |e: EventModel| !derivation::falls(e.event_id, all, ids, false);
    let i = choose|i: int| 0 <= i < all.len() && (#[trigger] all[i]).event_id == id;
    all.lemma_filter_contains(keep, i);
    let kept = derivation::survivors(all, ids, false);
    assert(kept =~= all.filter(keep));
    assert(kept[kept.index_of(all[i])].event_id == id);
}

proof fn lemma_evidence_read(
    snap: TreeModel,
    existing: Set<Seq<char>>,
    stored: Seq<LinkModel>,
    limits: SyncReadLimits,
) -> (read: (int, EventScan))
    requires
        import::accepted(snap, existing, stored, limits) is Ok,
    ensures
        ({
            let m = import::accepted(snap, existing, stored, limits)->Ok_0;
            let max = limits.max_total_bytes as int;
            &&& tree::read_events(snap.events, read.0, max) == Ok::<EventScan, SyncError>(read.1)
            &&& m.events == derivation::survivors(
                read.1.out,
                import::suppressed_ids(m.tombstones),
                false,
            )
            &&& tree::read_ranges(snap.ranges, read.1.total, max) is Ok
            &&& m.ranges == (tree::read_ranges(snap.ranges, read.1.total, max)->Ok_0).out
        }),
{
    let rc = import::received(snap, limits)->Ok_0;
    let ids = import::suppressed_ids(rc.tombstones);
    let max = limits.max_total_bytes as int;
    let st = import::scan_nodes(
        rc.refs,
        0,
        import::id_texts(ids),
        existing,
        import::scan_start(),
        max,
    )->Ok_0;
    let (_, total) = tree::read_links(snap.links, st.total, max)->Ok_0;
    (total, tree::read_events(snap.events, total, max)->Ok_0)
}

/// Every event that a tree holds is imported, unless it falls with the
/// interactions that the tree's tombstones suppress: what is imported are the
/// survivors of all events of the tree.
pub proof fn law_published_event_is_imported(
    snap: TreeModel,
    existing: Set<Seq<char>>,
    stored: Seq<LinkModel>,
    limits: SyncReadLimits,
    shard: Seq<char>,
    file: Seq<char>,
)
    requires
        import::accepted(snap, existing, stored, limits) is Ok,
        layout::lookup(snap.events, shard, file) is Some,
    ensures
        ({
            let m = import::accepted(snap, existing, stored, limits)->Ok_0;
            let ids = import::suppressed_ids(m.tombstones);
            layout::lookup(snap.events, shard, file)->0.record matches Some(x) && exists|
                all: Seq<EventModel>,
            |
                {
                    &&& m.events == #[trigger] derivation::survivors(all, ids, false)
                    &&& event_held(all, x.event_id)
                    &&& derivation::falls(x.event_id, all, ids, false) || event_held(
                        m.events,
                        x.event_id,
                    )
                }
        }),
{
    let m = import::accepted(snap, existing, stored, limits)->Ok_0;
    let ids = import::suppressed_ids(m.tombstones);
    let (total, scan) = lemma_evidence_read(snap, existing, stored, limits);
    lemma_event_found(snap.events, total, limits.max_total_bytes as int, shard, file);
    let x = layout::lookup(snap.events, shard, file)->0.record->0;
    if !derivation::falls(x.event_id, scan.out, ids, false) {
        lemma_survivor_held(scan.out, ids, x.event_id);
    }
    assert(m.events == derivation::survivors(scan.out, ids, false));
}

/// A range of this identity is in the list.
pub open spec fn range_held(ranges: Seq<RangeModel>, id: Seq<char>) -> bool {
    exists|i: int| 0 <= i < ranges.len() && (#[trigger] ranges[i]).range_id == id
}

spec fn ranges_noted(st: RangeScan) -> bool {
    forall|id: Seq<char>| #[trigger] st.seen.contains_key(id) ==> range_held(st.out, id)
}

proof fn lemma_range_read(
    shard: Seq<char>,
    leaf: LeafModel<RangeModel>,
    st: RangeScan,
    max: int,
    id: Seq<char>,
)
    requires
        ranges_noted(st),
        tree::range_leaf(shard, leaf, st, max) is Ok,
    ensures
        ({
            let next = tree::range_leaf(shard, leaf, st, max)->Ok_0;
            &&& ranges_noted(next)
            &&& leaf.record is Some
            &&& range_held(next.out, (leaf.record->0).range_id)
            &&& range_held(st.out, id) ==> range_held(next.out, id)
        }),
{
    let next = tree::range_leaf(shard, leaf, st, max)->Ok_0;
    let x = leaf.record->0;
    if next.out != st.out {
        assert(next.out[st.out.len() as int].range_id == x.range_id);
        assert forall|y: Seq<char>| range_held(st.out, y) implies range_held(next.out, y) by {
            let i = choose|i: int| 0 <= i < st.out.len() && (#[trigger] st.out[i]).range_id == y;
            assert(next.out[i].range_id == y);
        }
        assert forall|y: Seq<char>| #[trigger] next.seen.contains_key(y) implies range_held(
            next.out,
            y,
        ) by {
            if y != x.range_id {
                assert(st.seen.contains_key(y));
            }
        }
    } else if !st.seen.contains_key(x.range_id) {
        assert(next.out.len() == st.out.len() + 1);
    }
}

proof fn lemma_range_leaves_read(
    shard: Seq<char>,
    leaves: Seq<LeafModel<RangeModel>>,
    i: int,
    st: RangeScan,
    max: int,
    j: int,
    id: Seq<char>,
)
    requires
        0 <= i <= leaves.len(),
        ranges_noted(st),
        tree::range_leaves(shard, leaves, i, st, max) is Ok,
    ensures
        ({
            let done = tree::range_leaves(shard, leaves, i, st, max)->Ok_0;
            &&& ranges_noted(done)
            &&& i <= j < leaves.len() ==> leaves[j].record is Some && range_held(
                done.out,
                (leaves[j].record->0).range_id,
            )
            &&& range_held(st.out, id) ==> range_held(done.out, id)
        }),
    decreases leaves.len() - i,
{
    if i < leaves.len() {
        let next = tree::range_leaf(shard, leaves[i], st, max)->Ok_0;
        lemma_range_read(shard, leaves[i], st, max, id);
        lemma_range_leaves_read(shard, leaves, i + 1, next, max, j, id);
        if i == j {
            lemma_range_leaves_read(
                shard,
                leaves,
                i + 1,
                next,
                max,
                j,
                (leaves[j].record->0).range_id,
            );
        }
    }
}

proof fn lemma_range_shards_read(
    shards: Seq<ShardModel<RangeModel>>,
    k: int,
    st: RangeScan,
    max: int,
    a: int,
    j: int,
    id: Seq<char>,
)
    requires
        0 <= k <= shards.len(),
        ranges_noted(st),
        tree::range_shards(shards, k, st, max) is Ok,
    ensures
        ({
            let done = tree::range_shards(shards, k, st, max)->Ok_0;
            &&& k <= a < shards.len() && 0 <= j < shards[a].leaves.len()
                ==> shards[a].leaves[j].record is Some && range_held(
                done.out,
                (shards[a].leaves[j].record->0).range_id,
            )
            &&& range_held(st.out, id) ==> range_held(done.out, id)
        }),
    decreases shards.len() - k,
{
    if k < shards.len() {
        let next = tree::range_leaves(shards[k].name, shards[k].leaves, 0, st, max)->Ok_0;
        lemma_range_leaves_read(shards[k].name, shards[k].leaves, 0, st, max, j, id);
        lemma_range_shards_read(shards, k + 1, next, max, a, j, id);
        if k == a && 0 <= j < shards[a].leaves.len() {
            lemma_range_shards_read(
                shards,
                k + 1,
                next,
                max,
                a,
                j,
                (shards[a].leaves[j].record->0).range_id,
            );
        }
    }
}

/// Every range that a tree holds is imported.
pub proof fn law_published_range_is_imported(
    snap: TreeModel,
    existing: Set<Seq<char>>,
    stored: Seq<LinkModel>,
    limits: SyncReadLimits,
    shard: Seq<char>,
    file: Seq<char>,
)
    requires
        import::accepted(snap, existing, stored, limits) is Ok,
        layout::lookup(snap.ranges, shard, file) is Some,
    ensures
        layout::lookup(snap.ranges, shard, file)->0.record matches Some(x) && range_held(
            (import::accepted(snap, existing, stored, limits)->Ok_0).ranges,
            x.range_id,
        ),
{
    let max = limits.max_total_bytes as int;
    let (_, scan) = lemma_evidence_read(snap, existing, stored, limits);
    let total = scan.total;
    let shards = (snap.ranges->0).shards;
    layout::lemma_find_shard(shards, shard, 0);
    let a = layout::find_shard(shards, shard, 0)->0;
    layout::lemma_find_leaf(shards[a].leaves, file, 0);
    let j = layout::find_leaf(shards[a].leaves, file, 0)->0;
    let start = RangeScan { out: Seq::empty(), seen: Map::empty(), total };
    lemma_range_shards_read(shards, 0, start, max, a, j, shard);
}

proof fn lemma_tombstone_leaves_read(
    shard: Seq<char>,
    leaves: Seq<LeafModel<TombstoneModel>>,
    i: int,
    out: Seq<TombstoneModel>,
    total: int,
    limits: SyncReadLimits,
    j: int,
    x: TombstoneModel,
)
    requires
        0 <= i <= leaves.len(),
        tree::tombstone_leaves(shard, leaves, i, out, total, limits) is Ok,
    ensures
        ({
            let done = (tree::tombstone_leaves(shard, leaves, i, out, total, limits)->Ok_0).0;
            &&& i <= j < leaves.len() ==> leaves[j].record is Some && done.contains(
                leaves[j].record->0,
            )
            &&& out.contains(x) ==> done.contains(x)
        }),
    decreases leaves.len() - i,
{
    if i < leaves.len() {
        let (o, t) = tree::tombstone_leaf(shard, leaves[i], out, total, limits)->Ok_0;
        assert(o[out.len() as int] == leaves[i].record->0);
        if out.contains(x) {
            assert(o[out.index_of(x)] == x);
        }
        lemma_tombstone_leaves_read(shard, leaves, i + 1, o, t, limits, j, x);
        if i == j {
            lemma_tombstone_leaves_read(
                shard,
                leaves,
                i + 1,
                o,
                t,
                limits,
                j,
                leaves[j].record->0,
            );
        }
    }
}

proof fn lemma_tombstone_shards_read(
    shards: Seq<ShardModel<TombstoneModel>>,
    k: int,
    out: Seq<TombstoneModel>,
    total: int,
    limits: SyncReadLimits,
    a: int,
    j: int,
    x: TombstoneModel,
)
    requires
        0 <= k <= shards.len(),
        tree::tombstone_shards(shards, k, out, total, limits) is Ok,
    ensures
        ({
            let done = (tree::tombstone_shards(shards, k, out, total, limits)->Ok_0).0;
            &&& k <= a < shards.len() && 0 <= j < shards[a].leaves.len()
                ==> shards[a].leaves[j].record is Some && done.contains(
                shards[a].leaves[j].record->0,
            )
            &&& out.contains(x) ==> done.contains(x)
        }),
    decreases shards.len() - k,
{
    if k < shards.len() {
        let (o, t) = tree::tombstone_leaves(
            shards[k].name,
            shards[k].leaves,
            0,
            out,
            total,
            limits,
        )->Ok_0;
        lemma_tombstone_leaves_read(
            shards[k].name,
            shards[k].leaves,
            0,
            out,
            total,
            limits,
            j,
            x,
        );
        lemma_tombstone_shards_read(shards, k + 1, o, t, limits, a, j, x);
        if k == a && 0 <= j < shards[a].leaves.len() {
            lemma_tombstone_shards_read(
                shards,
                k + 1,
                o,
                t,
                limits,
                a,
                j,
                shards[a].leaves[j].record->0,
            );
        }
    }
}

proof fn lemma_found_tombstone(s: Seq<TombstoneModel>, id: InteractionId, k: int)
    requires
        0 <= k <= s.len(),
    ensures
        tree::find_tombstone(s, id, k) matches Some(t) ==> s.contains(t),
    decreases s.len() - k,
{
    if k < s.len() && s[k].interaction_id != id {
        lemma_found_tombstone(s, id, k + 1);
    }
}

proof fn lemma_distinct_keeps(
    s: Seq<TombstoneModel>,
    i: int,
    held: Seq<TombstoneModel>,
    x: TombstoneModel,
)
    requires
        0 <= i <= s.len(),
        tree::distinct_tombstones(s, i, held) is Ok,
        held.contains(x) || s.skip(i).contains(x),
    ensures
        (tree::distinct_tombstones(s, i, held)->Ok_0).contains(x),
    decreases s.len() - i,
{
    if i < s.len() {
        lemma_found_tombstone(held, s[i].interaction_id, 0);
        let next = if tree::find_tombstone(held, s[i].interaction_id, 0) is Some {
            held
        } else {
            held.push(s[i])
        };
        assert(next.contains(s[i])) by {
            if next != held {
                assert(next[held.len() as int] == s[i]);
            }
        }
        if held.contains(x) {
            assert(next[held.index_of(x)] == x);
        } else {
            let p = s.skip(i).index_of(x);
            if p > 0 {
                assert(s.skip(i + 1)[p - 1] == x);
            } else {
                assert(s[i] == x);
            }
        }
        lemma_distinct_keeps(s, i + 1, next, x);
    } else {
        assert(s.skip(i).len() == 0);
    }
}

/// Every tombstone that a tree holds is imported.
pub proof fn law_published_tombstone_is_imported(
    snap: TreeModel,
    existing: Set<Seq<char>>,
    stored: Seq<LinkModel>,
    limits: SyncReadLimits,
    shard: Seq<char>,
    file: Seq<char>,
)
    requires
        import::accepted(snap, existing, stored, limits) is Ok,
        layout::lookup(snap.tombstones, shard, file) is Some,
    ensures
        layout::lookup(snap.tombstones, shard, file)->0.record matches Some(x) && (
        import::accepted(snap, existing, stored, limits)->Ok_0).tombstones.contains(x),
{
    let shards = (snap.tombstones->0).shards;
    layout::lemma_find_shard(shards, shard, 0);
    let a = layout::find_shard(shards, shard, 0)->0;
    layout::lemma_find_leaf(shards[a].leaves, file, 0);
    let j = layout::find_leaf(shards[a].leaves, file, 0)->0;
    let all = (tree::tombstone_shards(shards, 0, Seq::empty(), 0, limits)->Ok_0).0;
    let x = shards[a].leaves[j].record->0;
    lemma_tombstone_shards_read(shards, 0, Seq::empty(), 0, limits, a, j, x);
    assert(all.skip(0) =~= all);
    lemma_distinct_keeps(all, 0, Seq::empty(), x);
}

/// Tombstones dominate every earlier projection: whatever the baseline holds for
/// a suppressed interaction, and whatever the store offers, the projection does
/// not hold the interaction, and holds its tombstone.
pub proof fn law_suppressed_is_not_published(
    base: Option<TreeModel>,
    ids: Seq<InteractionId>,
    seed: TreeModel,
    local: LocalProjectionModel,
    t: TreeModel,
    k: int,
)
    requires
        ids == projection::local_suppressed(local.tombstones),
        projection::seeded(base, ids) == Ok::<TreeModel, SyncError>(seed),
        projection::may_project(seed, local, Ok(t)),
        0 <= k < local.tombstones.len(),
    ensures
        ({
            let id = local.tombstones[k].record.interaction_id;
            &&& projection::present_node(t.entries, id) is None
            &&& layout::lookup(t.tombstones, id.text().take(2), projection::node_file(id)) matches Some(
                leaf,
            ) && leaf.record == Some(local.tombstones[k].record)
        }),
{
    let id = local.tombstones[k].record.interaction_id;
    assert(ids[k] == id);
    assert(ids.contains(id));
    let start = match base {
        Some(held) => held,
        None => projection::empty_tree(),
    };
    redaction::law_pruning_forgets(start, ids, id);
    projection::law_projection_suppresses(seed, local, t, id);
    law_projection_publishes_tombstones(seed, local, t, k);
}

} // verus!
