//! What is taken in of a received tree, and what its index has to hold.

use crate::import;
use crate::import::{NodeScan, TreeModel};
use crate::keeping;
use crate::models::{EventModel, LinkModel};
use crate::projection;
use crate::projection::EndpointScan;
use crate::tree;
use crate::tree::{BlobModel, LinkRecordModel, NodeModel, SyncReadLimits};
use vstd::prelude::*;

verus! {

/// A file of a received tree that holds this node under its own identity, and whose
/// interaction is not suppressed.
pub open spec fn node_received(
    refs: Seq<(Seq<char>, BlobModel)>,
    dead: Set<Seq<char>>,
    n: NodeModel,
) -> bool {
    exists|k: int|
        0 <= k < refs.len() && (#[trigger] refs[k]).0 == n.interaction.id.text()
            && refs[k].1.node == Some(n) && !dead.contains(refs[k].0)
}

/// Some node of the list is of this identity.
pub open spec fn has_node(nodes: Seq<NodeModel>, id: Seq<char>) -> bool {
    exists|k: int| 0 <= k < nodes.len() && (#[trigger] nodes[k]).interaction.id.text() == id
}

proof fn lemma_first_by_text(nodes: Seq<NodeModel>, id: Seq<char>, k: int)
    requires
        0 <= k <= nodes.len(),
    ensures
        import::find_by_text(nodes, id, k) is Some ==> has_node(nodes, id),
    decreases nodes.len() - k,
{
    if k < nodes.len() && nodes[k].interaction.id.text() != id {
        lemma_first_by_text(nodes, id, k + 1);
    } else if k < nodes.len() {
        assert(nodes[k].interaction.id.text() == id);
    }
}

proof fn lemma_has_more(a: Seq<NodeModel>, x: NodeModel, id: Seq<char>)
    ensures
        has_node(a, id) ==> has_node(a.push(x), id),
        has_node(a.push(x), x.interaction.id.text()),
{
    if has_node(a, id) {
        let k = choose|k: int|
            0 <= k < a.len() && (#[trigger] a[k]).interaction.id.text() == id;
        assert(a.push(x)[k].interaction.id.text() == id);
    }
    assert(a.push(x)[a.len() as int].interaction.id.text() == x.interaction.id.text());
}

/// What has been read: the new nodes are those read that the store does not have.
spec fn scan_sound(st: NodeScan, existing: Set<Seq<char>>) -> bool {
    forall|id: Seq<char>| #![trigger has_node(st.wire, id)]
        has_node(st.wire, id) && !existing.contains(id) ==> has_node(st.fresh, id)
}

proof fn lemma_nodes_read(
    refs: Seq<(Seq<char>, BlobModel)>,
    i: int,
    dead: Set<Seq<char>>,
    existing: Set<Seq<char>>,
    st: NodeScan,
    max: int,
)
    requires
        0 <= i <= refs.len(),
        import::scan_nodes(refs, i, dead, existing, st, max) is Ok,
        scan_sound(st, existing),
        forall|k: int|
            0 <= k < st.fresh.len() ==> node_received(refs, dead, #[trigger] st.fresh[k])
                && !existing.contains(st.fresh[k].interaction.id.text()),
    ensures
        ({
            let done = import::scan_nodes(refs, i, dead, existing, st, max)->Ok_0;
            &&& scan_sound(done, existing)
            &&& forall|k: int|
                0 <= k < done.fresh.len() ==> node_received(refs, dead, #[trigger] done.fresh[k])
                    && !existing.contains(done.fresh[k].interaction.id.text())
            &&& forall|id: Seq<char>| #[trigger] has_node(st.wire, id) ==> has_node(done.wire, id)
            &&& forall|j: int|
                i <= j < refs.len() && !dead.contains((#[trigger] refs[j]).0) ==> has_node(
                    done.wire,
                    refs[j].0,
                )
        }),
    decreases refs.len() - i,
{
    if i < refs.len() {
        if dead.contains(refs[i].0) {
            lemma_nodes_read(refs, i + 1, dead, existing, st, max);
        } else {
            let next = import::node_step(refs[i].0, refs[i].1, st, existing, max)->Ok_0;
            let n = refs[i].1.node->0;
            let id = refs[i].0;
            assert(n.interaction.id.text() == id);
            lemma_first_by_text(st.wire, id, 0);
            if import::find_by_text(st.wire, id, 0) is None {
                assert(next.wire == st.wire.push(n));
                assert(node_received(refs, dead, n));
                assert forall|x: Seq<char>| #[trigger] has_node(st.wire, x) implies has_node(
                    next.wire,
                    x,
                ) by {
                    lemma_has_more(st.wire, n, x);
                }
                lemma_has_more(st.wire, n, id);
                assert forall|x: Seq<char>|
                    #![trigger has_node(next.wire, x)]
                    has_node(next.wire, x) && !existing.contains(x) implies has_node(
                    next.fresh,
                    x,
                ) by {
                    let k = choose|k: int|
                        0 <= k < next.wire.len() && (
                        #[trigger] next.wire[k]).interaction.id.text() == x;
                    if k < st.wire.len() {
                        assert(st.wire[k].interaction.id.text() == x);
                        assert(has_node(st.wire, x));
                        assert(has_node(st.fresh, x));
                        lemma_has_more(st.fresh, n, x);
                    } else {
                        lemma_has_more(st.fresh, n, x);
                    }
                }
            }
            assert(has_node(next.wire, id));
            lemma_nodes_read(refs, i + 1, dead, existing, next, max);
        }
    }
}

/// An import takes in every interaction of the tree that is neither suppressed nor in
/// the store, as its file holds it, and no other. Only a parent that is suppressed is
/// cut off.
pub proof fn law_import_takes_in_what_is_new(
    snap: TreeModel,
    existing: Set<Seq<char>>,
    stored: Seq<LinkModel>,
    limits: SyncReadLimits,
)
    requires
        import::accepted(snap, existing, stored, limits) is Ok,
    ensures
        ({
            let out = import::accepted(snap, existing, stored, limits)->Ok_0;
            let refs = tree::node_blobs(snap.entries, 2, 0, Seq::empty())->Ok_0;
            let dead = import::id_texts(import::suppressed_ids(out.tombstones));
            &&& tree::read_tombstones(snap.tombstones, limits) is Ok && out.tombstones
                == tree::read_tombstones(snap.tombstones, limits)->Ok_0
            &&& forall|j: int|
                0 <= j < refs.len() && !dead.contains((#[trigger] refs[j]).0) && !existing.contains(
                    refs[j].0,
                ) ==> has_node(out.nodes, refs[j].0)
            &&& forall|k: int|
                0 <= k < out.nodes.len() ==> is_taken_from(
                    refs,
                    dead,
                    #[trigger] out.nodes[k],
                ) && !existing.contains(out.nodes[k].interaction.id.text())
        }),
{
    let out = import::accepted(snap, existing, stored, limits)->Ok_0;
    let rc = import::received(snap, limits)->Ok_0;
    let refs = rc.refs;
    let dead = import::id_texts(import::suppressed_ids(rc.tombstones));
    let max = limits.max_total_bytes as int;
    let st = import::scan_nodes(refs, 0, dead, existing, import::scan_start(), max)->Ok_0;
    assert(scan_sound(import::scan_start(), existing));
    lemma_nodes_read(refs, 0, dead, existing, import::scan_start(), max);
    assert(out.nodes == st.fresh.map_values(|n: NodeModel| import::detached(n, dead)));
    assert forall|j: int|
        0 <= j < refs.len() && !dead.contains((#[trigger] refs[j]).0) && !existing.contains(
            refs[j].0,
        ) implies has_node(out.nodes, refs[j].0) by {
        assert(has_node(st.wire, refs[j].0));
        assert(has_node(st.fresh, refs[j].0));
        let k = choose|k: int|
            0 <= k < st.fresh.len() && (#[trigger] st.fresh[k]).interaction.id.text() == refs[j].0;
        assert(out.nodes[k].interaction.id.text() == refs[j].0);
    }
    assert forall|k: int| 0 <= k < out.nodes.len() implies is_taken_from(
        refs,
        dead,
        #[trigger] out.nodes[k],
    ) && !existing.contains(out.nodes[k].interaction.id.text()) by {
        let n = st.fresh[k];
        assert(node_received(refs, dead, n));
        assert(out.nodes[k] == import::detached(n, dead));
        assert(same_but_parent(n, out.nodes[k], dead));
    }
}

/// A node is what a file of the tree holds, but for a parent that is suppressed.
pub open spec fn is_taken_from(
    refs: Seq<(Seq<char>, BlobModel)>,
    dead: Set<Seq<char>>,
    b: NodeModel,
) -> bool {
    exists|a: NodeModel| #[trigger] same_but_parent(a, b, dead) && node_received(refs, dead, a)
}

/// Two nodes are the same, but that a parent that is suppressed is cut off.
pub open spec fn same_but_parent(a: NodeModel, b: NodeModel, dead: Set<Seq<char>>) -> bool {
    &&& b.interaction.id == a.interaction.id
    &&& b.interaction.conversation_id == a.interaction.conversation_id
    &&& b.interaction.timestamp == a.interaction.timestamp
    &&& b.interaction.author == a.interaction.author
    &&& b.interaction.user_prompt == a.interaction.user_prompt
    &&& b.interaction.model_name == a.interaction.model_name
    &&& b.interaction.model_cot == a.interaction.model_cot
    &&& b.interaction.model_response == a.interaction.model_response
    &&& b.interaction.source_request_id == a.interaction.source_request_id
    &&& b.context_items == a.context_items
    &&& b.tool_executions == a.tool_executions
    &&& b.artifact_links == a.artifact_links
    &&& match a.interaction.parent_id {
        None => b.interaction.parent_id is None,
        Some(p) => if dead.contains(p.text()) {
            b.interaction.parent_id is None
        } else {
            b.interaction.parent_id == Some(p)
        },
    }
}

/// The links of an import are the link records of the tree whose interaction is not
/// suppressed, and no others.
pub proof fn law_import_takes_in_live_links(
    snap: TreeModel,
    existing: Set<Seq<char>>,
    stored: Seq<LinkModel>,
    limits: SyncReadLimits,
    total: int,
)
    requires
        import::accepted(snap, existing, stored, limits) is Ok,
        ({
            let rc = import::received(snap, limits)->Ok_0;
            let dead = import::id_texts(import::suppressed_ids(rc.tombstones));
            total == import::scan_nodes(
                rc.refs,
                0,
                dead,
                existing,
                import::scan_start(),
                limits.max_total_bytes as int,
            )->Ok_0.total
        }),
    ensures
        ({
            let out = import::accepted(snap, existing, stored, limits)->Ok_0;
            let all = tree::read_links(snap.links, total, limits.max_total_bytes as int)->Ok_0.0;
            let dead = import::id_texts(import::suppressed_ids(out.tombstones));
            &&& forall|j: int|
                0 <= j < all.len() && !dead.contains((#[trigger] all[j]).interaction_id)
                    ==> out.records.contains(all[j])
            &&& forall|k: int|
                0 <= k < out.records.len() ==> all.contains(#[trigger] out.records[k])
                    && !dead.contains(out.records[k].interaction_id)
        }),
{
    let rc = import::received(snap, limits)->Ok_0;
    let dead = import::id_texts(import::suppressed_ids(rc.tombstones));
    let all = tree::read_links(snap.links, total, limits.max_total_bytes as int)->Ok_0.0;
    keeping::lemma_filter_is_exact(all, |r: LinkRecordModel| !dead.contains(r.interaction_id));
}

/// A place of the index that nodes, records or events give rise to.
pub open spec fn is_place_of(
    nodes: Seq<NodeModel>,
    records: Seq<LinkRecordModel>,
    events: Seq<EventModel>,
    x: Seq<char>,
) -> bool {
    ||| place_of_node(nodes, 0, x)
    ||| place_of_record(records, 0, x)
    ||| place_of_event(events, 0, x)
}

/// A place that a link of a node gives rise to.
pub open spec fn place_of_node(nodes: Seq<NodeModel>, k: int, x: Seq<char>) -> bool {
    exists|i: int, j: int|
        k <= i < nodes.len() && 0 <= j < nodes[i].artifact_links.len() && x == (
        #[trigger] nodes[i].artifact_links[j]).git_commit_hash + "/"@
            + nodes[i].interaction.id.text()
}

/// A place that a link record gives rise to.
pub open spec fn place_of_record(records: Seq<LinkRecordModel>, k: int, x: Seq<char>) -> bool {
    exists|i: int|
        k <= i < records.len() && x == (#[trigger] records[i]).git_commit_hash + "/"@
            + records[i].interaction_id
}

/// A place that an event gives rise to.
pub open spec fn place_of_event(events: Seq<EventModel>, k: int, x: Seq<char>) -> bool {
    exists|i: int|
        k <= i < events.len() && x == (#[trigger] events[i]).target_commit + "/"@
            + events[i].interaction_id.text()
}

proof fn lemma_link_places(id: Seq<char>, links: Seq<LinkModel>, j: int, out: Set<Seq<char>>)
    requires
        0 <= j <= links.len(),
    ensures
        forall|x: Seq<char>| #[trigger]
            import::add_link_paths(id, links, j, out).contains(x) <==> out.contains(x) || exists|
                m: int,
            |
                j <= m < links.len() && x == (#[trigger] links[m]).git_commit_hash + "/"@ + id,
    decreases links.len() - j,
{
    if j < links.len() {
        let next = out.insert(tree::index_path(links[j].git_commit_hash, id));
        lemma_link_places(id, links, j + 1, next);
        let done = import::add_link_paths(id, links, j, out);
        let rest = import::add_link_paths(id, links, j + 1, next);
        assert(done == rest);
        assert forall|x: Seq<char>| #[trigger] done.contains(x) <==> out.contains(x) || exists|
            m: int,
        |
            j <= m < links.len() && x == (#[trigger] links[m]).git_commit_hash + "/"@ + id by {
            assert(rest.contains(x) <==> next.contains(x) || exists|m: int|
                j + 1 <= m < links.len() && x == (#[trigger] links[m]).git_commit_hash + "/"@ + id);
            if next.contains(x) && !out.contains(x) {
                assert(x == links[j].git_commit_hash + "/"@ + id);
            }
            if rest.contains(x) && !next.contains(x) {
                let m = choose|m: int|
                    j + 1 <= m < links.len() && x == (#[trigger] links[m]).git_commit_hash + "/"@
                        + id;
                assert(x == links[m].git_commit_hash + "/"@ + id);
            }
            if exists|m: int|
                j <= m < links.len() && x == (#[trigger] links[m]).git_commit_hash + "/"@ + id {
                let m = choose|m: int|
                    j <= m < links.len() && x == (#[trigger] links[m]).git_commit_hash + "/"@ + id;
                if m > j {
                    assert(x == links[m].git_commit_hash + "/"@ + id);
                }
            }
        }
    }
}

proof fn lemma_node_places(nodes: Seq<NodeModel>, k: int, out: Set<Seq<char>>)
    requires
        0 <= k <= nodes.len(),
    ensures
        forall|x: Seq<char>| #[trigger]
            import::node_paths(nodes, k, out).contains(x) <==> out.contains(x) || place_of_node(
                nodes,
                k,
                x,
            ),
    decreases nodes.len() - k,
{
    if k < nodes.len() {
        let id = nodes[k].interaction.id.text();
        let links = nodes[k].artifact_links;
        let next = import::add_link_paths(id, links, 0, out);
        lemma_link_places(id, links, 0, out);
        lemma_node_places(nodes, k + 1, next);
        let done = import::node_paths(nodes, k, out);
        let rest = import::node_paths(nodes, k + 1, next);
        assert(done == rest);
        assert forall|x: Seq<char>| #[trigger] done.contains(x) <==> out.contains(x)
            || place_of_node(nodes, k, x) by {
            assert(rest.contains(x) <==> next.contains(x) || place_of_node(nodes, k + 1, x));
            assert(next.contains(x) <==> out.contains(x) || exists|m: int|
                0 <= m < links.len() && x == (#[trigger] links[m]).git_commit_hash + "/"@ + id);
            if next.contains(x) && !out.contains(x) {
                let m = choose|m: int|
                    0 <= m < links.len() && x == (#[trigger] links[m]).git_commit_hash + "/"@ + id;
                assert(x == nodes[k].artifact_links[m].git_commit_hash + "/"@
                    + nodes[k].interaction.id.text());
            }
            if place_of_node(nodes, k + 1, x) {
                let (i, j) = choose|i: int, j: int|
                    k + 1 <= i < nodes.len() && 0 <= j < nodes[i].artifact_links.len() && x == (
                    #[trigger] nodes[i].artifact_links[j]).git_commit_hash + "/"@
                        + nodes[i].interaction.id.text();
                assert(x == nodes[i].artifact_links[j].git_commit_hash + "/"@
                    + nodes[i].interaction.id.text());
            }
            if place_of_node(nodes, k, x) {
                let (i, j) = choose|i: int, j: int|
                    k <= i < nodes.len() && 0 <= j < nodes[i].artifact_links.len() && x == (
                    #[trigger] nodes[i].artifact_links[j]).git_commit_hash + "/"@
                        + nodes[i].interaction.id.text();
                if i == k {
                    assert(x == links[j].git_commit_hash + "/"@ + id);
                } else {
                    assert(x == nodes[i].artifact_links[j].git_commit_hash + "/"@
                        + nodes[i].interaction.id.text());
                    assert(place_of_node(nodes, k + 1, x));
                }
            }
        }
    }
}

proof fn lemma_record_places(records: Seq<LinkRecordModel>, k: int, out: Set<Seq<char>>)
    requires
        0 <= k <= records.len(),
    ensures
        forall|x: Seq<char>| #[trigger]
            import::record_paths(records, k, out).contains(x) <==> out.contains(x)
                || place_of_record(records, k, x),
    decreases records.len() - k,
{
    if k < records.len() {
        let next = out.insert(
            tree::index_path(records[k].git_commit_hash, records[k].interaction_id),
        );
        lemma_record_places(records, k + 1, next);
        let done = import::record_paths(records, k, out);
        let rest = import::record_paths(records, k + 1, next);
        assert(done == rest);
        assert forall|x: Seq<char>| #[trigger] done.contains(x) <==> out.contains(x)
            || place_of_record(records, k, x) by {
            assert(rest.contains(x) <==> next.contains(x) || place_of_record(records, k + 1, x));
            if next.contains(x) && !out.contains(x) {
                assert(x == records[k].git_commit_hash + "/"@ + records[k].interaction_id);
            }
            if place_of_record(records, k + 1, x) {
                let i = choose|i: int|
                    k + 1 <= i < records.len() && x == (#[trigger] records[i]).git_commit_hash
                        + "/"@ + records[i].interaction_id;
                assert(x == records[i].git_commit_hash + "/"@ + records[i].interaction_id);
            }
            if place_of_record(records, k, x) {
                let i = choose|i: int|
                    k <= i < records.len() && x == (#[trigger] records[i]).git_commit_hash + "/"@
                        + records[i].interaction_id;
                if i > k {
                    assert(x == records[i].git_commit_hash + "/"@ + records[i].interaction_id);
                    assert(place_of_record(records, k + 1, x));
                }
            }
        }
    }
}

proof fn lemma_event_places(events: Seq<EventModel>, k: int, out: Set<Seq<char>>)
    requires
        0 <= k <= events.len(),
    ensures
        forall|x: Seq<char>| #[trigger]
            import::event_paths(events, k, out).contains(x) <==> out.contains(x) || place_of_event(
                events,
                k,
                x,
            ),
    decreases events.len() - k,
{
    if k < events.len() {
        let next = out.insert(
            tree::index_path(events[k].target_commit, events[k].interaction_id.text()),
        );
        lemma_event_places(events, k + 1, next);
        let done = import::event_paths(events, k, out);
        let rest = import::event_paths(events, k + 1, next);
        assert(done == rest);
        assert forall|x: Seq<char>| #[trigger] done.contains(x) <==> out.contains(x)
            || place_of_event(events, k, x) by {
            assert(rest.contains(x) <==> next.contains(x) || place_of_event(events, k + 1, x));
            if next.contains(x) && !out.contains(x) {
                assert(x == events[k].target_commit + "/"@ + events[k].interaction_id.text());
            }
            if place_of_event(events, k + 1, x) {
                let i = choose|i: int|
                    k + 1 <= i < events.len() && x == (#[trigger] events[i]).target_commit + "/"@
                        + events[i].interaction_id.text();
                assert(x == events[i].target_commit + "/"@ + events[i].interaction_id.text());
            }
            if place_of_event(events, k, x) {
                let i = choose|i: int|
                    k <= i < events.len() && x == (#[trigger] events[i]).target_commit + "/"@
                        + events[i].interaction_id.text();
                if i > k {
                    assert(x == events[i].target_commit + "/"@ + events[i].interaction_id.text());
                    assert(place_of_event(events, k + 1, x));
                }
            }
        }
    }
}

/// The index that is expected of a tree holds the place of every link of every node, of
/// every link record and of every event, and nothing else.
pub proof fn law_expected_index_is_exact(
    nodes: Seq<NodeModel>,
    records: Seq<LinkRecordModel>,
    events: Seq<EventModel>,
)
    ensures
        forall|x: Seq<char>| #[trigger]
            import::expected_index(nodes, records, events).contains(x) <==> is_place_of(
                nodes,
                records,
                events,
                x,
            ),
{
    let a = import::node_paths(nodes, 0, Set::empty());
    let b = import::record_paths(records, 0, a);
    lemma_node_places(nodes, 0, Set::empty());
    lemma_record_places(records, 0, a);
    lemma_event_places(events, 0, b);
    assert forall|x: Seq<char>| #[trigger]
        import::expected_index(nodes, records, events).contains(x) <==> is_place_of(
        nodes,
        records,
        events,
        x,
    ) by {
        assert(b.contains(x) <==> a.contains(x) || place_of_record(records, 0, x));
        assert(a.contains(x) <==> place_of_node(nodes, 0, x));
    }
}

/// The list of endpoints holds every place once.
spec fn places_listed(s: EndpointScan) -> bool {
    forall|x: Seq<char>| #[trigger] s.paths.contains(x) <==> place_listed(s.list, x)
}

/// A place that an endpoint of the list has.
pub open spec fn place_listed(list: Seq<(Seq<char>, Seq<char>)>, x: Seq<char>) -> bool {
    exists|k: int| 0 <= k < list.len() && x == (#[trigger] list[k]).0 + "/"@ + list[k].1
}

proof fn lemma_with_endpoint(s: EndpointScan, commit: Seq<char>, id: Seq<char>)
    requires
        places_listed(s),
    ensures
        ({
            let out = projection::with_endpoint(s, commit, id);
            &&& places_listed(out)
            &&& out.nodes == s.nodes
            &&& out.paths.contains(commit + "/"@ + id)
            &&& forall|x: Seq<char>| #[trigger]
                out.paths.contains(x) <==> s.paths.contains(x) || x == commit + "/"@ + id
        }),
{
    let out = projection::with_endpoint(s, commit, id);
    let path = commit + "/"@ + id;
    if !s.paths.contains(path) {
        assert forall|x: Seq<char>| #[trigger] out.paths.contains(x) <==> place_listed(
            out.list,
            x,
        ) by {
            if s.paths.contains(x) {
                let k = choose|k: int|
                    0 <= k < s.list.len() && x == (#[trigger] s.list[k]).0 + "/"@ + s.list[k].1;
                assert(x == out.list[k].0 + "/"@ + out.list[k].1);
            }
            if x == path {
                let k = s.list.len() as int;
                assert(x == out.list[k].0 + "/"@ + out.list[k].1);
            }
            if place_listed(out.list, x) {
                let k = choose|k: int|
                    0 <= k < out.list.len() && x == (#[trigger] out.list[k]).0 + "/"@
                        + out.list[k].1;
                if k < s.list.len() {
                    assert(x == s.list[k].0 + "/"@ + s.list[k].1);
                }
            }
        }
    }
}

proof fn lemma_events_scanned(events: Seq<EventModel>, k: int, s: EndpointScan)
    requires
        0 <= k <= events.len(),
        places_listed(s),
        projection::scan_events(events, k, s) is Ok,
    ensures
        ({
            let out = projection::scan_events(events, k, s)->Ok_0;
            &&& places_listed(out)
            &&& forall|x: Seq<char>| #[trigger]
                out.paths.contains(x) <==> s.paths.contains(x) || place_of_event(events, k, x)
        }),
    decreases events.len() - k,
{
    if k < events.len() {
        let id = events[k].interaction_id.text();
        let next = projection::with_endpoint(s, events[k].target_commit, id);
        lemma_with_endpoint(s, events[k].target_commit, id);
        lemma_events_scanned(events, k + 1, next);
        let out = projection::scan_events(events, k, s)->Ok_0;
        assert forall|x: Seq<char>| #[trigger] out.paths.contains(x) <==> s.paths.contains(x)
            || place_of_event(events, k, x) by {
            assert(next.paths.contains(x) <==> s.paths.contains(x) || x == events[k].target_commit
                + "/"@ + id);
            if place_of_event(events, k + 1, x) {
                let i = choose|i: int|
                    k + 1 <= i < events.len() && x == (#[trigger] events[i]).target_commit + "/"@
                        + events[i].interaction_id.text();
                assert(x == events[i].target_commit + "/"@ + events[i].interaction_id.text());
            }
            if x == events[k].target_commit + "/"@ + id {
                assert(place_of_event(events, k, x));
            }
            if place_of_event(events, k, x) {
                let i = choose|i: int|
                    k <= i < events.len() && x == (#[trigger] events[i]).target_commit + "/"@
                        + events[i].interaction_id.text();
                if i > k {
                    assert(x == events[i].target_commit + "/"@ + events[i].interaction_id.text());
                    assert(place_of_event(events, k + 1, x));
                }
            }
        }
    }
}

/// The events of a tree are all pointed to by its index: reading them adds the place of
/// each, and nothing but that.
pub proof fn law_every_event_is_indexed(events: Seq<EventModel>, s: EndpointScan)
    requires
        forall|x: Seq<char>| #[trigger] s.paths.contains(x) <==> place_listed(s.list, x),
        projection::scan_events(events, 0, s) is Ok,
    ensures
        ({
            let out = projection::scan_events(events, 0, s)->Ok_0;
            &&& forall|i: int|
                0 <= i < events.len() ==> place_listed(
                    out.list,
                    (#[trigger] events[i]).target_commit + "/"@ + events[i].interaction_id.text(),
                )
            &&& forall|x: Seq<char>| #[trigger]
                place_listed(out.list, x) ==> place_listed(s.list, x) || place_of_event(
                    events,
                    0,
                    x,
                )
        }),
{
    assert(places_listed(s));
    lemma_events_scanned(events, 0, s);
    let out = projection::scan_events(events, 0, s)->Ok_0;
    assert forall|i: int| 0 <= i < events.len() implies place_listed(
        out.list,
        (#[trigger] events[i]).target_commit + "/"@ + events[i].interaction_id.text(),
    ) by {
        let x = events[i].target_commit + "/"@ + events[i].interaction_id.text();
        assert(place_of_event(events, 0, x));
        assert(out.paths.contains(x));
    }
    assert forall|x: Seq<char>| #[trigger] place_listed(out.list, x) implies place_listed(
        s.list,
        x,
    ) || place_of_event(events, 0, x) by {
        assert(out.paths.contains(x));
    }
}

proof fn lemma_links_scanned(id: Seq<char>, links: Seq<LinkModel>, j: int, s: EndpointScan)
    requires
        0 <= j <= links.len(),
        places_listed(s),
        projection::scan_node_links(id, links, j, s) is Ok,
    ensures
        ({
            let out = projection::scan_node_links(id, links, j, s)->Ok_0;
            &&& places_listed(out)
            &&& out.nodes == s.nodes
            &&& forall|x: Seq<char>| #[trigger] s.paths.contains(x) ==> out.paths.contains(x)
            &&& forall|m: int|
                j <= m < links.len() ==> out.paths.contains(
                    (#[trigger] links[m]).git_commit_hash + "/"@ + id,
                )
        }),
    decreases links.len() - j,
{
    if j < links.len() {
        let next = projection::with_endpoint(s, links[j].git_commit_hash, id);
        lemma_with_endpoint(s, links[j].git_commit_hash, id);
        lemma_links_scanned(id, links, j + 1, next);
        let out = projection::scan_node_links(id, links, j, s)->Ok_0;
        let rest = projection::scan_node_links(id, links, j + 1, next)->Ok_0;
        assert(out == rest);
        assert(next.paths.contains(links[j].git_commit_hash + "/"@ + id));
        assert forall|x: Seq<char>| #[trigger] s.paths.contains(x) implies out.paths.contains(x) by {
            assert(next.paths.contains(x));
        }
    }
}

proof fn lemma_refs_scanned(refs: Seq<(Seq<char>, BlobModel)>, k: int, s: EndpointScan)
    requires
        0 <= k <= refs.len(),
        places_listed(s),
        projection::scan_refs(refs, k, s) is Ok,
    ensures
        ({
            let out = projection::scan_refs(refs, k, s)->Ok_0;
            &&& places_listed(out)
            &&& forall|x: Seq<char>| #[trigger] s.paths.contains(x) ==> out.paths.contains(x)
            &&& forall|x: Seq<char>| #[trigger] s.nodes.contains(x) ==> out.nodes.contains(x)
            &&& forall|i: int|
                k <= i < refs.len() ==> (#[trigger] refs[i]).1.node is Some && out.nodes.contains(
                    refs[i].0,
                )
            &&& forall|i: int, j: int|
                k <= i < refs.len() && 0 <= j < refs[i].1.node->0.artifact_links.len()
                    ==> out.paths.contains(
                    (#[trigger] refs[i].1.node->0.artifact_links[j]).git_commit_hash + "/"@
                        + refs[i].0,
                )
        }),
    decreases refs.len() - k,
{
    if k < refs.len() {
        let n = refs[k].1.node->0;
        let id = n.interaction.id.text();
        let seen = EndpointScan { nodes: s.nodes.insert(id), ..s };
        assert(places_listed(seen)) by {
            assert forall|x: Seq<char>| #[trigger] seen.paths.contains(x) <==> place_listed(
                seen.list,
                x,
            ) by {
                assert(s.paths.contains(x) <==> place_listed(s.list, x));
            }
        }
        lemma_links_scanned(id, n.artifact_links, 0, seen);
        let next = projection::scan_node_links(id, n.artifact_links, 0, seen)->Ok_0;
        lemma_refs_scanned(refs, k + 1, next);
        let out = projection::scan_refs(refs, k, s)->Ok_0;
        assert(next.nodes.contains(refs[k].0));
        assert forall|x: Seq<char>| #[trigger] s.paths.contains(x) implies out.paths.contains(x) by {
            assert(seen.paths.contains(x));
            assert(next.paths.contains(x));
        }
        assert forall|x: Seq<char>| #[trigger] s.nodes.contains(x) implies out.nodes.contains(x) by {
            assert(next.nodes.contains(x));
        }
        assert forall|i: int, j: int|
            k <= i < refs.len() && 0 <= j
                < refs[i].1.node->0.artifact_links.len() implies out.paths.contains(
            (#[trigger] refs[i].1.node->0.artifact_links[j]).git_commit_hash + "/"@ + refs[i].0,
        ) by {
            if i == k {
                assert(next.paths.contains(n.artifact_links[j].git_commit_hash + "/"@ + id));
            }
        }
    }
}

/// Every link of every interaction of a tree is an endpoint of its index.
pub proof fn law_every_link_is_indexed(refs: Seq<(Seq<char>, BlobModel)>, i: int, j: int)
    requires
        projection::scan_refs(refs, 0, projection::no_endpoints()) is Ok,
        0 <= i < refs.len(),
        refs[i].1.node is Some,
        0 <= j < refs[i].1.node->0.artifact_links.len(),
    ensures
        place_listed(
            projection::scan_refs(refs, 0, projection::no_endpoints())->Ok_0.list,
            refs[i].1.node->0.artifact_links[j].git_commit_hash + "/"@ + refs[i].0,
        ),
{
    assert(places_listed(projection::no_endpoints()));
    lemma_refs_scanned(refs, 0, projection::no_endpoints());
    let x = refs[i].1.node->0.artifact_links[j].git_commit_hash + "/"@ + refs[i].0;
    let out = projection::scan_refs(refs, 0, projection::no_endpoints())->Ok_0;
    assert(out.paths.contains(x));
}

} // verus!
