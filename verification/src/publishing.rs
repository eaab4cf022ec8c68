//! What a projection publishes: nothing but what the store offers, on top of all that
//! was there.

use crate::derivation;
use crate::fault::SyncError;
use crate::import;
use crate::import::TreeModel;
use crate::layout;
use crate::models;
use crate::models::{EventModel, InteractionId, TombstoneModel};
use crate::projection;
use crate::projection::{Growth, LocalLinkModel, LocalModel, LocalNodeModel, LocalProjectionModel};
use crate::roundtrip;
use crate::tree::{EntryKind, LeafModel, ObjectModel};
use vstd::prelude::*;

verus! {

/// An interaction that the store offers and does not suppress.
pub open spec fn is_offered(
    nodes: Seq<LocalNodeModel>,
    dead: Set<Seq<char>>,
    id: InteractionId,
    o: ObjectModel,
) -> bool {
    exists|k: int|
        0 <= k < nodes.len() && (#[trigger] nodes[k]).id == id && !dead.contains(id.text())
            && nodes[k].blob is Some && o == ObjectModel::Blob(nodes[k].blob->0)
}

proof fn lemma_nodes_offered(
    g: Growth,
    nodes: Seq<LocalNodeModel>,
    dead: Set<Seq<char>>,
    k: int,
    done: Growth,
    id: InteractionId,
)
    requires
        0 <= k <= nodes.len(),
        projection::may_add_nodes(g, nodes, dead, k, Ok(done)),
    ensures
        projection::present_node(done.tree.entries, id) == projection::present_node(
            g.tree.entries,
            id,
        ) || projection::present_node(done.tree.entries, id) is Some && is_offered(
            nodes,
            dead,
            id,
            projection::present_node(done.tree.entries, id)->0,
        ),
    decreases nodes.len() - k,
{
    if k < nodes.len() {
        let new = nodes[k].id;
        if dead.contains(new.text()) || projection::present_node(g.tree.entries, new) is Some {
            lemma_nodes_offered(g, nodes, dead, k + 1, done, id);
        } else {
            let b = nodes[k].blob->0;
            let grown = Growth {
                tree: TreeModel {
                    entries: layout::placed_node(
                        g.tree.entries,
                        new.text().take(2),
                        projection::node_file(new),
                        b,
                    ),
                    ..g.tree
                },
                emitted: g.emitted + b.body.len(),
            };
            roundtrip::lemma_node_placed(g.tree.entries, new, b, id);
            lemma_nodes_offered(grown, nodes, dead, k + 1, done, id);
            if id.text() == new.text() {
                models::lemma_uuid_text_injective(id.value, new.value);
                assert(nodes[k].id == id);
                assert(is_offered(nodes, dead, id, ObjectModel::Blob(b)));
            }
        }
    }
}

/// No interaction is published but what was there and what the store offers: one that
/// the seed does not hold stands in the projection as the store serialized it, and is
/// not suppressed.
pub proof fn law_no_other_interaction_is_published(
    seed: TreeModel,
    local: LocalProjectionModel,
    t: TreeModel,
    id: InteractionId,
)
    requires
        projection::may_project(seed, local, Ok(t)),
        projection::present_node(seed.entries, id) is None,
        projection::present_node(t.entries, id) is Some,
    ensures
        is_offered(
            local.nodes,
            import::id_texts(projection::local_suppressed(local.tombstones)),
            id,
            projection::present_node(t.entries, id)->0,
        ),
{
    let (g, _, _) = projection::lemma_projection_steps(seed, local, t);
    let dead = import::id_texts(projection::local_suppressed(local.tombstones));
    lemma_nodes_offered(projection::ungrown(seed), local.nodes, dead, 0, g, id);
}

/// A link that the store has for this place.
pub open spec fn link_offered(
    links: Seq<LocalLinkModel>,
    shard: Seq<char>,
    file: Seq<char>,
) -> bool {
    exists|k: int|
        0 <= k < links.len() && (#[trigger] links[k]).intended.interaction_id == shard && file
            == links[k].intended.git_commit_hash + ".json"@ && derivation::automatic_link_type(
            links[k].intended.link_type,
        ) && derivation::is_commit_sha(links[k].intended.git_commit_hash)
}

proof fn lemma_links_offered(
    g: Growth,
    links: Seq<LocalLinkModel>,
    k: int,
    done: Growth,
    shard: Seq<char>,
    file: Seq<char>,
)
    requires
        0 <= k <= links.len(),
        projection::may_add_links(g, links, k, Ok(done)),
        layout::all_trees(g.tree.links),
        layout::lookup(done.tree.links, shard, file) is Some,
    ensures
        layout::lookup(g.tree.links, shard, file) is Some || link_offered(links, shard, file),
    decreases links.len() - k,
{
    if k < links.len() {
        let want = links[k].intended;
        let name = want.git_commit_hash + ".json"@;
        if !derivation::automatic_link_type(want.link_type) || !derivation::is_commit_sha(
            want.git_commit_hash,
        ) || layout::lookup(g.tree.links, want.interaction_id, name) is Some {
            lemma_links_offered(g, links, k + 1, done, shard, file);
        } else {
            let leaf = LeafModel {
                name,
                kind: EntryKind::Blob,
                body: links[k].body,
                record: links[k].record,
            };
            let grown = Growth {
                tree: TreeModel {
                    links: Some(layout::placed(g.tree.links, want.interaction_id, leaf)),
                    ..g.tree
                },
                emitted: g.emitted + links[k].body.len(),
            };
            layout::lemma_placed(g.tree.links, want.interaction_id, leaf, shard, file);
            lemma_links_offered(grown, links, k + 1, done, shard, file);
            if want.interaction_id == shard && name == file {
                assert(links[k].intended.interaction_id == shard);
            }
        }
    }
}

/// No link record is published but what was there and the automatic links that the
/// store offers, and what was there stays as it is.
pub proof fn law_no_other_link_is_published(
    seed: TreeModel,
    local: LocalProjectionModel,
    t: TreeModel,
    shard: Seq<char>,
    file: Seq<char>,
)
    requires
        projection::may_project(seed, local, Ok(t)),
        layout::all_trees(seed.links),
    ensures
        layout::lookup(seed.links, shard, file) is Some ==> layout::lookup(t.links, shard, file)
            == layout::lookup(seed.links, shard, file),
        layout::lookup(t.links, shard, file) is Some && layout::lookup(seed.links, shard, file)
            is None ==> link_offered(local.links, shard, file),
{
    let (_, g1, g2) = projection::lemma_projection_steps(seed, local, t);
    if layout::lookup(seed.links, shard, file) is Some {
        roundtrip::lemma_links_stay(g1, local.links, 0, g2, shard, file);
    } else if layout::lookup(t.links, shard, file) is Some {
        lemma_links_offered(g1, local.links, 0, g2, shard, file);
    }
}

/// An event that the store has for this place and that does not fall.
pub open spec fn event_offered(
    list: Seq<LocalModel<EventModel>>,
    removed: Set<Seq<char>>,
    shard: Seq<char>,
    file: Seq<char>,
) -> bool {
    exists|k: int|
        0 <= k < list.len() && (#[trigger] list[k]).record.event_id.take(2) == shard && file
            == list[k].record.event_id + ".json"@ && !removed.contains(list[k].record.event_id)
}

proof fn lemma_events_offered(
    g: Growth,
    list: Seq<LocalModel<EventModel>>,
    removed: Set<Seq<char>>,
    k: int,
    shard: Seq<char>,
    file: Seq<char>,
)
    requires
        0 <= k <= list.len(),
        projection::with_events(g, list, removed, k) is Ok,
        layout::all_trees(g.tree.events),
        layout::lookup(
            projection::with_events(g, list, removed, k)->Ok_0.tree.events,
            shard,
            file,
        ) is Some,
    ensures
        layout::lookup(g.tree.events, shard, file) is Some || event_offered(
            list,
            removed,
            shard,
            file,
        ),
    decreases list.len() - k,
{
    if k < list.len() {
        let x = list[k].record;
        let name = x.event_id + ".json"@;
        if removed.contains(x.event_id) || layout::lookup(g.tree.events, x.event_id.take(2), name)
            is Some {
            lemma_events_offered(g, list, removed, k + 1, shard, file);
        } else {
            let leaf = LeafModel {
                name,
                kind: EntryKind::Blob,
                body: list[k].body,
                record: Some(x),
            };
            let grown = Growth {
                tree: TreeModel {
                    events: Some(layout::placed(g.tree.events, x.event_id.take(2), leaf)),
                    ..g.tree
                },
                emitted: g.emitted + list[k].body.len(),
            };
            layout::lemma_placed(g.tree.events, x.event_id.take(2), leaf, shard, file);
            lemma_events_offered(grown, list, removed, k + 1, shard, file);
            if x.event_id.take(2) == shard && name == file {
                assert(list[k].record.event_id.take(2) == shard);
            }
        }
    }
}

/// No event is published but what was there and those of the store that do not fall
/// with a suppressed interaction, and what was there stays as it is.
pub proof fn law_no_other_event_is_published(
    seed: TreeModel,
    local: LocalProjectionModel,
    t: TreeModel,
    shard: Seq<char>,
    file: Seq<char>,
)
    requires
        projection::may_project(seed, local, Ok(t)),
        layout::all_trees(seed.events),
    ensures
        layout::lookup(seed.events, shard, file) is Some ==> layout::lookup(t.events, shard, file)
            == layout::lookup(seed.events, shard, file),
        layout::lookup(t.events, shard, file) is Some && layout::lookup(seed.events, shard, file)
            is None ==> event_offered(
            local.events,
            projection::local_fallen(
                local.events,
                projection::local_suppressed(local.tombstones),
            ),
            shard,
            file,
        ),
{
    let (_, _, g2) = projection::lemma_projection_steps(seed, local, t);
    let removed = projection::local_fallen(
        local.events,
        projection::local_suppressed(local.tombstones),
    );
    let g3 = projection::with_events(g2, local.events, removed, 0)->Ok_0;
    projection::lemma_ranges_keep(g3, local.ranges, 0);
    assert(layout::lookup(t.events, shard, file) == layout::lookup(g3.tree.events, shard, file)) by {
        assert(t.events == projection::present(g3.tree.events));
        if g3.tree.events is None {
            layout::lemma_find_shard((t.events->0).shards, shard, 0);
        }
    }
    if layout::lookup(seed.events, shard, file) is Some {
        roundtrip::lemma_events_stay(g2, local.events, removed, 0, shard, file);
    } else if layout::lookup(t.events, shard, file) is Some {
        lemma_events_offered(g2, local.events, removed, 0, shard, file);
    }
}

/// A tombstone that the store has for this place.
pub open spec fn tombstone_offered(
    list: Seq<LocalModel<TombstoneModel>>,
    shard: Seq<char>,
    file: Seq<char>,
) -> bool {
    exists|k: int|
        0 <= k < list.len() && (#[trigger] list[k]).record.interaction_id.text().take(2) == shard
            && file == list[k].record.interaction_id.text() + ".json"@
}

proof fn lemma_tombstones_offered(
    g: Growth,
    list: Seq<LocalModel<TombstoneModel>>,
    k: int,
    shard: Seq<char>,
    file: Seq<char>,
)
    requires
        0 <= k <= list.len(),
        projection::with_tombstones(g, list, k) is Ok,
        layout::all_trees(g.tree.tombstones),
        layout::lookup(
            projection::with_tombstones(g, list, k)->Ok_0.tree.tombstones,
            shard,
            file,
        ) is Some,
    ensures
        layout::lookup(g.tree.tombstones, shard, file) is Some || tombstone_offered(
            list,
            shard,
            file,
        ),
    decreases list.len() - k,
{
    if k < list.len() {
        let x = list[k].record;
        let own = x.interaction_id.text().take(2);
        let name = projection::node_file(x.interaction_id);
        if layout::lookup(g.tree.tombstones, own, name) is Some {
            lemma_tombstones_offered(g, list, k + 1, shard, file);
        } else {
            let leaf = LeafModel {
                name,
                kind: EntryKind::Blob,
                body: list[k].body,
                record: Some(x),
            };
            let grown = Growth {
                tree: TreeModel {
                    tombstones: Some(layout::placed(g.tree.tombstones, own, leaf)),
                    ..g.tree
                },
                emitted: g.emitted + list[k].body.len(),
            };
            layout::lemma_placed(g.tree.tombstones, own, leaf, shard, file);
            lemma_tombstones_offered(grown, list, k + 1, shard, file);
            if own == shard && name == file {
                assert(list[k].record.interaction_id.text().take(2) == shard);
            }
        }
    }
}

/// No tombstone is published but what was there and those of the store, and what was
/// there stays as it is.
pub proof fn law_no_other_tombstone_is_published(
    seed: TreeModel,
    local: LocalProjectionModel,
    t: TreeModel,
    shard: Seq<char>,
    file: Seq<char>,
)
    requires
        projection::may_project(seed, local, Ok(t)),
        layout::all_trees(seed.tombstones),
    ensures
        layout::lookup(seed.tombstones, shard, file) is Some ==> layout::lookup(
            t.tombstones,
            shard,
            file,
        ) == layout::lookup(seed.tombstones, shard, file),
        layout::lookup(t.tombstones, shard, file) is Some && layout::lookup(
            seed.tombstones,
            shard,
            file,
        ) is None ==> tombstone_offered(local.tombstones, shard, file),
{
    let (g, g1, _) = projection::lemma_projection_steps(seed, local, t);
    let dead = import::id_texts(projection::local_suppressed(local.tombstones));
    roundtrip::lemma_nodes_stay(
        projection::ungrown(seed),
        local.nodes,
        dead,
        0,
        g,
        InteractionId { value: 0 },
    );
    if layout::lookup(seed.tombstones, shard, file) is Some {
        roundtrip::lemma_tombstones_stay(g, local.tombstones, 0, shard, file);
    } else if layout::lookup(t.tombstones, shard, file) is Some {
        lemma_tombstones_offered(g, local.tombstones, 0, shard, file);
    }
}

/// The layout marker after a projection is that of the current layout where the tree
/// had none or an earlier one, and stays where it has it.
pub proof fn law_layout_is_brought_up(format: Option<Seq<u8>>)
    ensures
        format is None ==> projection::upgraded(format) == Ok::<Seq<u8>, SyncError>(seq![53u8]),
        format matches Some(body) ==> match import::format_number(body) {
            Err(f) => projection::upgraded(format) == Err::<Seq<u8>, SyncError>(f),
            Ok(n) => {
                &&& n < 5 ==> projection::upgraded(format) == Ok::<Seq<u8>, SyncError>(seq![53u8])
                &&& n == 5 ==> projection::upgraded(format) == Ok::<Seq<u8>, SyncError>(body)
                &&& n > 5 ==> projection::upgraded(format) is Err
            },
        },
{
}

} // verus!
