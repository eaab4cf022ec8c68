//! What is collected of a tree: every record of every namespace.

use crate::derivation;
use crate::models;
use crate::models::{EventModel, InteractionId, LinkModel, RangeModel, TombstoneModel};
use crate::sync;
use crate::text;
use crate::tree;
use crate::tree::{
    BlobModel, EntryKind, EntryModel, EventScan, LeafModel, LinkRecordModel, NamespaceModel,
    NodeModel, ObjectModel, RangeScan, ShardModel, SyncReadLimits,
};
use vstd::prelude::*;
use vstd::string::*;

verus! {

proof fn lemma_file_of_stem(name: Seq<char>)
    ensures
        tree::json_stem(name) matches Some(stem) ==> name == stem + ".json"@,
        forall|stem: Seq<char>| name == #[trigger] (stem + ".json"@) ==> tree::json_stem(name)
            == Some(stem),
{
    reveal_strlit(".json");
    if text::has_suffix(name, ".json"@) {
        assert(name =~= name.take(name.len() - 5) + ".json"@);
    }
    assert forall|stem: Seq<char>| name == #[trigger] (stem + ".json"@) implies tree::json_stem(
        name,
    ) == Some(stem) by {
        assert(name.skip(name.len() - 5) =~= ".json"@);
        assert(name.take(name.len() - 5) =~= stem);
    }
}

proof fn lemma_link_leaves(
    interaction: Seq<char>,
    leaves: Seq<LeafModel<LinkRecordModel>>,
    i: int,
    out: Seq<LinkRecordModel>,
    total: int,
    max: int,
)
    requires
        0 <= i <= leaves.len(),
        tree::link_leaves(interaction, leaves, i, out, total, max) is Ok,
    ensures
        ({
            let done = tree::link_leaves(interaction, leaves, i, out, total, max)->Ok_0.0;
            &&& done.len() == out.len() + leaves.len() - i
            &&& forall|k: int| 0 <= k < out.len() ==> #[trigger] done[k] == out[k]
            &&& forall|j: int|
                i <= j < leaves.len() ==> link_stands(
                    interaction,
                    #[trigger] leaves[j],
                    done[out.len() + j - i],
                )
        }),
    decreases leaves.len() - i,
{
    if i < leaves.len() {
        let one = tree::link_leaf(interaction, leaves[i], out, total, max)->Ok_0;
        lemma_file_of_stem(leaves[i].name);
        lemma_link_leaves(interaction, leaves, i + 1, one.0, one.1, max);
        let done = tree::link_leaves(interaction, leaves, i, out, total, max)->Ok_0.0;
        assert(one.0 == out.push(leaves[i].record->0));
        assert(done[out.len() as int] == one.0[out.len() as int]);
        assert forall|k: int| 0 <= k < out.len() implies #[trigger] done[k] == out[k] by {
            assert(one.0[k] == out[k]);
        }
    }
}

/// A file of the links directory of an interaction holds this record.
pub open spec fn link_stands(
    interaction: Seq<char>,
    leaf: LeafModel<LinkRecordModel>,
    r: LinkRecordModel,
) -> bool {
    &&& leaf.record == Some(r)
    &&& leaf.kind == EntryKind::Blob
    &&& r.interaction_id == interaction
    &&& leaf.name == r.git_commit_hash + ".json"@
    &&& derivation::is_commit_sha(r.git_commit_hash)
    &&& derivation::automatic_link_type(r.link_type)
}

spec fn link_listed(out: Seq<LinkRecordModel>, interaction: Seq<char>, leaf: LeafModel<LinkRecordModel>) -> bool {
    leaf.record is Some && link_stands(interaction, leaf, leaf.record->0) && out.contains(
        leaf.record->0,
    )
}

/// A link record that stands in a file of a tree.
pub open spec fn holds_link(
    shards: Seq<ShardModel<LinkRecordModel>>,
    k: int,
    r: LinkRecordModel,
) -> bool {
    exists|s: int, j: int|
        k <= s < shards.len() && 0 <= j < shards[s].leaves.len() && link_stands(
            shards[s].name,
            #[trigger] shards[s].leaves[j],
            r,
        )
}

/// Every link record of a tree is read: what is read holds the record of every file of
/// every interaction, and nothing that no file holds; each record is of the
/// interaction and the commit that its place names.
pub proof fn law_every_link_record_is_read(
    n: NamespaceModel<LinkRecordModel>,
    total: int,
    max: int,
)
    requires
        n.kind == EntryKind::Tree,
        tree::read_links(Some(n), total, max) is Ok,
    ensures
        ({
            let out = tree::read_links(Some(n), total, max)->Ok_0.0;
            &&& forall|s: int, j: int|
                0 <= s < n.shards.len() && 0 <= j < n.shards[s].leaves.len() ==> (
                #[trigger] n.shards[s].leaves[j]).record is Some && link_stands(
                    n.shards[s].name,
                    n.shards[s].leaves[j],
                    n.shards[s].leaves[j].record->0,
                ) && out.contains(n.shards[s].leaves[j].record->0)
            &&& forall|r: LinkRecordModel| #[trigger] out.contains(r) ==> holds_link(n.shards, 0, r)
        }),
{
    lemma_link_shards(n.shards, 0, Seq::empty(), total, max);
    let out = tree::read_links(Some(n), total, max)->Ok_0.0;
    assert forall|s: int, j: int|
        0 <= s < n.shards.len() && 0 <= j < n.shards[s].leaves.len() implies (
    #[trigger] n.shards[s].leaves[j]).record is Some && link_stands(
        n.shards[s].name,
        n.shards[s].leaves[j],
        n.shards[s].leaves[j].record->0,
    ) && out.contains(n.shards[s].leaves[j].record->0) by {
        assert(link_listed(out, n.shards[s].name, n.shards[s].leaves[j]));
    }
}

proof fn lemma_link_shards(
    shards: Seq<ShardModel<LinkRecordModel>>,
    k: int,
    out: Seq<LinkRecordModel>,
    total: int,
    max: int,
)
    requires
        0 <= k <= shards.len(),
        tree::link_shards(shards, k, out, total, max) is Ok,
    ensures
        ({
            let done = tree::link_shards(shards, k, out, total, max)->Ok_0.0;
            &&& done.len() >= out.len()
            &&& forall|m: int| 0 <= m < out.len() ==> #[trigger] done[m] == out[m]
            &&& forall|s: int, j: int|
                k <= s < shards.len() && 0 <= j < shards[s].leaves.len() ==> link_listed(
                    done,
                    shards[s].name,
                    #[trigger] shards[s].leaves[j],
                )
            &&& forall|r: LinkRecordModel| #[trigger]
                done.contains(r) ==> out.contains(r) || holds_link(shards, k, r)
        }),
    decreases shards.len() - k,
{
    if k < shards.len() {
        let one = tree::link_leaves(shards[k].name, shards[k].leaves, 0, out, total, max)->Ok_0;
        lemma_link_leaves(shards[k].name, shards[k].leaves, 0, out, total, max);
        lemma_link_shards(shards, k + 1, one.0, one.1, max);
        let done = tree::link_shards(shards, k, out, total, max)->Ok_0.0;
        assert forall|m: int| 0 <= m < out.len() implies #[trigger] done[m] == out[m] by {
            assert(one.0[m] == out[m]);
        }
        assert forall|s: int, j: int|
            k <= s < shards.len() && 0 <= j < shards[s].leaves.len() implies link_listed(
            done,
            shards[s].name,
            #[trigger] shards[s].leaves[j],
        ) by {
            if s == k {
                let m = out.len() + j;
                assert(link_stands(shards[k].name, shards[k].leaves[j], one.0[m]));
                assert(done[m] == one.0[m]);
            }
        }
        assert forall|r: LinkRecordModel| #[trigger] done.contains(r) implies out.contains(r)
            || holds_link(shards, k, r) by {
            if one.0.contains(r) {
                let m = choose|m: int| 0 <= m < one.0.len() && one.0[m] == r;
                if m < out.len() {
                    assert(out[m] == r);
                } else {
                    let j = m - out.len();
                    assert(link_stands(shards[k].name, shards[k].leaves[j], one.0[m]));
                }
            } else {
                let (s, j) = choose|s: int, j: int|
                    k + 1 <= s < shards.len() && 0 <= j < shards[s].leaves.len() && link_stands(
                        shards[s].name,
                        #[trigger] shards[s].leaves[j],
                        r,
                    );
                assert(link_stands(shards[s].name, shards[s].leaves[j], r));
            }
        }
    }
}

/// A file of the events directory holds this event.
#[verifier::opaque]
pub open spec fn event_stands(shard: Seq<char>, leaf: LeafModel<EventModel>, x: EventModel) -> bool {
    &&& leaf.record == Some(x)
    &&& leaf.kind == EntryKind::Blob
    &&& leaf.name == x.event_id + ".json"@
    &&& x.event_id.take(2) == shard
    &&& derivation::valid_event(x)
}

/// A event that stands in a file of a tree.
pub open spec fn holds_event(shards: Seq<ShardModel<EventModel>>, k: int, x: EventModel) -> bool {
    exists|s: int, j: int|
        k <= s < shards.len() && 0 <= j < shards[s].leaves.len() && event_stands(
            shards[s].name,
            #[trigger] shards[s].leaves[j],
            x,
        )
}

/// Some event of the list has this identity.
pub open spec fn event_found(out: Seq<EventModel>, id: Seq<char>) -> bool {
    exists|m: int| 0 <= m < out.len() && (#[trigger] out[m]).event_id == id
}

spec fn events_scanned(st: EventScan) -> bool {
    forall|x: Seq<char>| #[trigger] st.seen.contains_key(x) <==> event_found(st.out, x)
}

spec fn event_taken(out: Seq<EventModel>, shard: Seq<char>, leaf: LeafModel<EventModel>) -> bool {
    leaf.record is Some && event_stands(shard, leaf, leaf.record->0) && event_found(
        out,
        leaf.record->0.event_id,
    )
}

#[verifier::rlimit(40)]
proof fn lemma_event_leaf(shard: Seq<char>, leaf: LeafModel<EventModel>, st: EventScan, max: int)
    requires
        events_scanned(st),
        tree::event_leaf(shard, leaf, st, max) is Ok,
    ensures
        ({
            let one = tree::event_leaf(shard, leaf, st, max)->Ok_0;
            &&& events_scanned(one)
            &&& event_taken(one.out, shard, leaf)
            &&& one.out == st.out || one.out == st.out.push(leaf.record->0)
        }),
{
    reveal(event_stands);
    let one = tree::event_leaf(shard, leaf, st, max)->Ok_0;
    let e = leaf.record->0;
    lemma_file_of_stem(leaf.name);
    assert(event_stands(shard, leaf, e));
    if !st.seen.contains_key(e.event_id) {
        assert(one.out == st.out.push(e));
        assert forall|x: Seq<char>| #[trigger] one.seen.contains_key(x) <==> event_found(
            one.out,
            x,
        ) by {
            if st.seen.contains_key(x) {
                let m = choose|m: int| 0 <= m < st.out.len() && (#[trigger] st.out[m]).event_id == x;
                assert(one.out[m].event_id == x);
            }
            if x == e.event_id {
                assert(one.out[st.out.len() as int].event_id == x);
            }
            if event_found(one.out, x) {
                let m = choose|m: int| 0 <= m < one.out.len() && (#[trigger] one.out[m]).event_id == x;
                if m < st.out.len() {
                    assert(st.out[m].event_id == x);
                }
            }
        }
        assert(one.out[st.out.len() as int].event_id == e.event_id);
    } else {
        assert(event_found(st.out, e.event_id));
    }
}

proof fn lemma_events_grow(a: Seq<EventModel>, b: Seq<EventModel>, x: Seq<char>)
    requires
        a.len() <= b.len(),
        forall|m: int| 0 <= m < a.len() ==> #[trigger] b[m] == a[m],
        event_found(a, x),
    ensures
        event_found(b, x),
{
    let m = choose|m: int| 0 <= m < a.len() && (#[trigger] a[m]).event_id == x;
    assert(b[m].event_id == x);
}

#[verifier::rlimit(40)]
proof fn lemma_event_leaves(
    shard: Seq<char>,
    leaves: Seq<LeafModel<EventModel>>,
    i: int,
    st: EventScan,
    max: int,
)
    requires
        0 <= i <= leaves.len(),
        events_scanned(st),
        tree::event_leaves(shard, leaves, i, st, max) is Ok,
    ensures
        ({
            let done = tree::event_leaves(shard, leaves, i, st, max)->Ok_0;
            &&& events_scanned(done)
            &&& done.out.len() >= st.out.len()
            &&& forall|m: int| 0 <= m < st.out.len() ==> #[trigger] done.out[m] == st.out[m]
            &&& forall|j: int|
                i <= j < leaves.len() ==> event_taken(done.out, shard, #[trigger] leaves[j])
            &&& forall|m: int|
                st.out.len() <= m < done.out.len() ==> event_comes_from(
                    shard,
                    leaves,
                    #[trigger] done.out[m],
                )
        }),
    decreases leaves.len() - i,
{
    if i < leaves.len() {
        let one = tree::event_leaf(shard, leaves[i], st, max)->Ok_0;
        lemma_event_leaf(shard, leaves[i], st, max);
        lemma_event_leaves(shard, leaves, i + 1, one, max);
        let done = tree::event_leaves(shard, leaves, i, st, max)->Ok_0;
        assert(done == tree::event_leaves(shard, leaves, i + 1, one, max)->Ok_0);
        assert forall|m: int| 0 <= m < st.out.len() implies #[trigger] done.out[m] == st.out[m] by {
            assert(done.out[m] == one.out[m]);
        }
        lemma_events_grow(one.out, done.out, leaves[i].record->0.event_id);
        assert forall|m: int| st.out.len() <= m < done.out.len() implies event_comes_from(
            shard,
            leaves,
            #[trigger] done.out[m],
        ) by {
            if m < one.out.len() {
                assert(done.out[m] == one.out[m]);
                assert(event_stands(shard, leaves[i], done.out[m]));
            }
        }
    }
}

spec fn event_comes_from(shard: Seq<char>, leaves: Seq<LeafModel<EventModel>>, x: EventModel) -> bool {
    exists|j: int| 0 <= j < leaves.len() && event_stands(shard, #[trigger] leaves[j], x)
}

proof fn lemma_event_shards(shards: Seq<ShardModel<EventModel>>, k: int, st: EventScan, max: int)
    requires
        0 <= k <= shards.len(),
        events_scanned(st),
        tree::event_shards(shards, k, st, max) is Ok,
    ensures
        ({
            let done = tree::event_shards(shards, k, st, max)->Ok_0;
            &&& done.out.len() >= st.out.len()
            &&& forall|m: int| 0 <= m < st.out.len() ==> #[trigger] done.out[m] == st.out[m]
            &&& forall|s: int, j: int|
                k <= s < shards.len() && 0 <= j < shards[s].leaves.len() ==> event_taken(
                    done.out,
                    shards[s].name,
                    #[trigger] shards[s].leaves[j],
                )
            &&& forall|m: int|
                st.out.len() <= m < done.out.len() ==> holds_event(
                    shards,
                    k,
                    #[trigger] done.out[m],
                )
        }),
    decreases shards.len() - k,
{
    if k < shards.len() {
        let one = tree::event_leaves(shards[k].name, shards[k].leaves, 0, st, max)->Ok_0;
        lemma_event_leaves(shards[k].name, shards[k].leaves, 0, st, max);
        lemma_event_shards(shards, k + 1, one, max);
        let done = tree::event_shards(shards, k, st, max)->Ok_0;
        assert(done == tree::event_shards(shards, k + 1, one, max)->Ok_0);
        assert forall|m: int| 0 <= m < st.out.len() implies #[trigger] done.out[m] == st.out[m] by {
            assert(done.out[m] == one.out[m]);
        }
        assert forall|s: int, j: int|
            k <= s < shards.len() && 0 <= j < shards[s].leaves.len() implies event_taken(
            done.out,
            shards[s].name,
            #[trigger] shards[s].leaves[j],
        ) by {
            if s == k {
                assert(event_taken(one.out, shards[k].name, shards[k].leaves[j]));
                lemma_events_grow(one.out, done.out, shards[k].leaves[j].record->0.event_id);
            }
        }
        assert forall|m: int| st.out.len() <= m < done.out.len() implies holds_event(
            shards,
            k,
            #[trigger] done.out[m],
        ) by {
            let x = done.out[m];
            if m < one.out.len() {
                assert(event_comes_from(shards[k].name, shards[k].leaves, one.out[m]));
                let j = choose|j: int|
                    0 <= j < shards[k].leaves.len() && event_stands(
                        shards[k].name,
                        #[trigger] shards[k].leaves[j],
                        x,
                    );
                assert(event_stands(shards[k].name, shards[k].leaves[j], x));
            } else {
                let (s, j) = choose|s: int, j: int|
                    k + 1 <= s < shards.len() && 0 <= j < shards[s].leaves.len() && event_stands(
                        shards[s].name,
                        #[trigger] shards[s].leaves[j],
                        x,
                    );
                assert(event_stands(shards[s].name, shards[s].leaves[j], x));
            }
        }
    }
}

/// Every event of a tree is read: each file holds one, under its own identity, and one
/// of that identity is read; every event that is read stands in such a file.
pub proof fn law_every_event_is_read(n: NamespaceModel<EventModel>, total: int, max: int)
    requires
        n.kind == EntryKind::Tree,
        tree::read_events(Some(n), total, max) is Ok,
    ensures
        ({
            let out = tree::read_events(Some(n), total, max)->Ok_0.out;
            &&& forall|s: int, j: int|
                0 <= s < n.shards.len() && 0 <= j < n.shards[s].leaves.len() ==> (
                #[trigger] n.shards[s].leaves[j]).record is Some && event_stands(
                    n.shards[s].name,
                    n.shards[s].leaves[j],
                    n.shards[s].leaves[j].record->0,
                ) && event_found(out, n.shards[s].leaves[j].record->0.event_id)
            &&& forall|m: int|
                0 <= m < out.len() ==> holds_event(n.shards, 0, #[trigger] out[m])
        }),
{
    let start = EventScan { out: Seq::empty(), seen: Map::empty(), total };
    assert(events_scanned(start));
    lemma_event_shards(n.shards, 0, start, max);
    let out = tree::read_events(Some(n), total, max)->Ok_0.out;
    assert forall|s: int, j: int|
        0 <= s < n.shards.len() && 0 <= j < n.shards[s].leaves.len() implies (
    #[trigger] n.shards[s].leaves[j]).record is Some && event_stands(
        n.shards[s].name,
        n.shards[s].leaves[j],
        n.shards[s].leaves[j].record->0,
    ) && event_found(out, n.shards[s].leaves[j].record->0.event_id) by {
        assert(event_taken(out, n.shards[s].name, n.shards[s].leaves[j]));
    }
}

/// A file of the ranges directory holds this range.
#[verifier::opaque]
pub open spec fn range_stands(shard: Seq<char>, leaf: LeafModel<RangeModel>, x: RangeModel) -> bool {
    &&& leaf.record == Some(x)
    &&& leaf.kind == EntryKind::Blob
    &&& leaf.name == x.range_id + ".json"@
    &&& x.range_id.take(2) == shard
    &&& models::valid_range(x)
}

/// A range that stands in a file of a tree.
pub open spec fn holds_range(shards: Seq<ShardModel<RangeModel>>, k: int, x: RangeModel) -> bool {
    exists|s: int, j: int|
        k <= s < shards.len() && 0 <= j < shards[s].leaves.len() && range_stands(
            shards[s].name,
            #[trigger] shards[s].leaves[j],
            x,
        )
}

/// Some range of the list has this identity.
pub open spec fn range_found(out: Seq<RangeModel>, id: Seq<char>) -> bool {
    exists|m: int| 0 <= m < out.len() && (#[trigger] out[m]).range_id == id
}

spec fn ranges_scanned(st: RangeScan) -> bool {
    forall|x: Seq<char>| #[trigger] st.seen.contains_key(x) <==> range_found(st.out, x)
}

spec fn range_taken(out: Seq<RangeModel>, shard: Seq<char>, leaf: LeafModel<RangeModel>) -> bool {
    leaf.record is Some && range_stands(shard, leaf, leaf.record->0) && range_found(
        out,
        leaf.record->0.range_id,
    )
}

#[verifier::rlimit(40)]
proof fn lemma_range_leaf(shard: Seq<char>, leaf: LeafModel<RangeModel>, st: RangeScan, max: int)
    requires
        ranges_scanned(st),
        tree::range_leaf(shard, leaf, st, max) is Ok,
    ensures
        ({
            let one = tree::range_leaf(shard, leaf, st, max)->Ok_0;
            &&& ranges_scanned(one)
            &&& range_taken(one.out, shard, leaf)
            &&& one.out == st.out || one.out == st.out.push(leaf.record->0)
        }),
{
    reveal(range_stands);
    let one = tree::range_leaf(shard, leaf, st, max)->Ok_0;
    let e = leaf.record->0;
    lemma_file_of_stem(leaf.name);
    assert(range_stands(shard, leaf, e));
    if !st.seen.contains_key(e.range_id) {
        assert(one.out == st.out.push(e));
        assert forall|x: Seq<char>| #[trigger] one.seen.contains_key(x) <==> range_found(
            one.out,
            x,
        ) by {
            if st.seen.contains_key(x) {
                let m = choose|m: int| 0 <= m < st.out.len() && (#[trigger] st.out[m]).range_id == x;
                assert(one.out[m].range_id == x);
            }
            if x == e.range_id {
                assert(one.out[st.out.len() as int].range_id == x);
            }
            if range_found(one.out, x) {
                let m = choose|m: int| 0 <= m < one.out.len() && (#[trigger] one.out[m]).range_id == x;
                if m < st.out.len() {
                    assert(st.out[m].range_id == x);
                }
            }
        }
        assert(one.out[st.out.len() as int].range_id == e.range_id);
    } else {
        assert(range_found(st.out, e.range_id));
    }
}

proof fn lemma_ranges_grow(a: Seq<RangeModel>, b: Seq<RangeModel>, x: Seq<char>)
    requires
        a.len() <= b.len(),
        forall|m: int| 0 <= m < a.len() ==> #[trigger] b[m] == a[m],
        range_found(a, x),
    ensures
        range_found(b, x),
{
    let m = choose|m: int| 0 <= m < a.len() && (#[trigger] a[m]).range_id == x;
    assert(b[m].range_id == x);
}

#[verifier::rlimit(40)]
proof fn lemma_range_leaves(
    shard: Seq<char>,
    leaves: Seq<LeafModel<RangeModel>>,
    i: int,
    st: RangeScan,
    max: int,
)
    requires
        0 <= i <= leaves.len(),
        ranges_scanned(st),
        tree::range_leaves(shard, leaves, i, st, max) is Ok,
    ensures
        ({
            let done = tree::range_leaves(shard, leaves, i, st, max)->Ok_0;
            &&& ranges_scanned(done)
            &&& done.out.len() >= st.out.len()
            &&& forall|m: int| 0 <= m < st.out.len() ==> #[trigger] done.out[m] == st.out[m]
            &&& forall|j: int|
                i <= j < leaves.len() ==> range_taken(done.out, shard, #[trigger] leaves[j])
            &&& forall|m: int|
                st.out.len() <= m < done.out.len() ==> range_comes_from(
                    shard,
                    leaves,
                    #[trigger] done.out[m],
                )
        }),
    decreases leaves.len() - i,
{
    if i < leaves.len() {
        let one = tree::range_leaf(shard, leaves[i], st, max)->Ok_0;
        lemma_range_leaf(shard, leaves[i], st, max);
        lemma_range_leaves(shard, leaves, i + 1, one, max);
        let done = tree::range_leaves(shard, leaves, i, st, max)->Ok_0;
        assert(done == tree::range_leaves(shard, leaves, i + 1, one, max)->Ok_0);
        assert forall|m: int| 0 <= m < st.out.len() implies #[trigger] done.out[m] == st.out[m] by {
            assert(done.out[m] == one.out[m]);
        }
        lemma_ranges_grow(one.out, done.out, leaves[i].record->0.range_id);
        assert forall|m: int| st.out.len() <= m < done.out.len() implies range_comes_from(
            shard,
            leaves,
            #[trigger] done.out[m],
        ) by {
            if m < one.out.len() {
                assert(done.out[m] == one.out[m]);
                assert(range_stands(shard, leaves[i], done.out[m]));
            }
        }
    }
}

spec fn range_comes_from(shard: Seq<char>, leaves: Seq<LeafModel<RangeModel>>, x: RangeModel) -> bool {
    exists|j: int| 0 <= j < leaves.len() && range_stands(shard, #[trigger] leaves[j], x)
}

proof fn lemma_range_shards(shards: Seq<ShardModel<RangeModel>>, k: int, st: RangeScan, max: int)
    requires
        0 <= k <= shards.len(),
        ranges_scanned(st),
        tree::range_shards(shards, k, st, max) is Ok,
    ensures
        ({
            let done = tree::range_shards(shards, k, st, max)->Ok_0;
            &&& done.out.len() >= st.out.len()
            &&& forall|m: int| 0 <= m < st.out.len() ==> #[trigger] done.out[m] == st.out[m]
            &&& forall|s: int, j: int|
                k <= s < shards.len() && 0 <= j < shards[s].leaves.len() ==> range_taken(
                    done.out,
                    shards[s].name,
                    #[trigger] shards[s].leaves[j],
                )
            &&& forall|m: int|
                st.out.len() <= m < done.out.len() ==> holds_range(
                    shards,
                    k,
                    #[trigger] done.out[m],
                )
        }),
    decreases shards.len() - k,
{
    if k < shards.len() {
        let one = tree::range_leaves(shards[k].name, shards[k].leaves, 0, st, max)->Ok_0;
        lemma_range_leaves(shards[k].name, shards[k].leaves, 0, st, max);
        lemma_range_shards(shards, k + 1, one, max);
        let done = tree::range_shards(shards, k, st, max)->Ok_0;
        assert(done == tree::range_shards(shards, k + 1, one, max)->Ok_0);
        assert forall|m: int| 0 <= m < st.out.len() implies #[trigger] done.out[m] == st.out[m] by {
            assert(done.out[m] == one.out[m]);
        }
        assert forall|s: int, j: int|
            k <= s < shards.len() && 0 <= j < shards[s].leaves.len() implies range_taken(
            done.out,
            shards[s].name,
            #[trigger] shards[s].leaves[j],
        ) by {
            if s == k {
                assert(range_taken(one.out, shards[k].name, shards[k].leaves[j]));
                lemma_ranges_grow(one.out, done.out, shards[k].leaves[j].record->0.range_id);
            }
        }
        assert forall|m: int| st.out.len() <= m < done.out.len() implies holds_range(
            shards,
            k,
            #[trigger] done.out[m],
        ) by {
            let x = done.out[m];
            if m < one.out.len() {
                assert(range_comes_from(shards[k].name, shards[k].leaves, one.out[m]));
                let j = choose|j: int|
                    0 <= j < shards[k].leaves.len() && range_stands(
                        shards[k].name,
                        #[trigger] shards[k].leaves[j],
                        x,
                    );
                assert(range_stands(shards[k].name, shards[k].leaves[j], x));
            } else {
                let (s, j) = choose|s: int, j: int|
                    k + 1 <= s < shards.len() && 0 <= j < shards[s].leaves.len() && range_stands(
                        shards[s].name,
                        #[trigger] shards[s].leaves[j],
                        x,
                    );
                assert(range_stands(shards[s].name, shards[s].leaves[j], x));
            }
        }
    }
}

/// Every range of a tree is read: each file holds one, under its own identity, and one
/// of that identity is read; every range that is read stands in such a file.
pub proof fn law_every_range_is_read(n: NamespaceModel<RangeModel>, total: int, max: int)
    requires
        n.kind == EntryKind::Tree,
        tree::read_ranges(Some(n), total, max) is Ok,
    ensures
        ({
            let out = tree::read_ranges(Some(n), total, max)->Ok_0.out;
            &&& forall|s: int, j: int|
                0 <= s < n.shards.len() && 0 <= j < n.shards[s].leaves.len() ==> (
                #[trigger] n.shards[s].leaves[j]).record is Some && range_stands(
                    n.shards[s].name,
                    n.shards[s].leaves[j],
                    n.shards[s].leaves[j].record->0,
                ) && range_found(out, n.shards[s].leaves[j].record->0.range_id)
            &&& forall|m: int|
                0 <= m < out.len() ==> holds_range(n.shards, 0, #[trigger] out[m])
        }),
{
    let start = RangeScan { out: Seq::empty(), seen: Map::empty(), total };
    assert(ranges_scanned(start));
    lemma_range_shards(n.shards, 0, start, max);
    let out = tree::read_ranges(Some(n), total, max)->Ok_0.out;
    assert forall|s: int, j: int|
        0 <= s < n.shards.len() && 0 <= j < n.shards[s].leaves.len() implies (
    #[trigger] n.shards[s].leaves[j]).record is Some && range_stands(
        n.shards[s].name,
        n.shards[s].leaves[j],
        n.shards[s].leaves[j].record->0,
    ) && range_found(out, n.shards[s].leaves[j].record->0.range_id) by {
        assert(range_taken(out, n.shards[s].name, n.shards[s].leaves[j]));
    }
}

proof fn lemma_first_tombstone(s: Seq<TombstoneModel>, id: InteractionId, k: int)
    requires
        0 <= k <= s.len(),
    ensures
        match tree::find_tombstone(s, id, k) {
            Some(t) => t.interaction_id == id && s.contains(t),
            None => forall|i: int| k <= i < s.len() ==> (#[trigger] s[i]).interaction_id != id,
        },
    decreases s.len() - k,
{
    if k < s.len() && s[k].interaction_id != id {
        lemma_first_tombstone(s, id, k + 1);
    }
}

/// Tombstones are read each once: every one that was found is there, nothing else is,
/// and no two speak of one interaction. Two that contradict each other are refused.
pub proof fn law_every_tombstone_counts_once(
    s: Seq<TombstoneModel>,
    i: int,
    accepted: Seq<TombstoneModel>,
)
    requires
        0 <= i <= s.len(),
        tree::distinct_tombstones(s, i, accepted) is Ok,
        forall|a: int, b: int|
            0 <= a < b < accepted.len() ==> (#[trigger] accepted[a]).interaction_id != (
            #[trigger] accepted[b]).interaction_id,
    ensures
        ({
            let out = tree::distinct_tombstones(s, i, accepted)->Ok_0;
            &&& forall|j: int| i <= j < s.len() ==> out.contains(#[trigger] s[j])
            &&& forall|t: TombstoneModel| #[trigger] accepted.contains(t) ==> out.contains(t)
            &&& forall|t: TombstoneModel| #[trigger]
                out.contains(t) ==> accepted.contains(t) || exists|j: int|
                    i <= j < s.len() && #[trigger] s[j] == t
            &&& forall|a: int, b: int|
                0 <= a < b < out.len() ==> (#[trigger] out[a]).interaction_id != (
                #[trigger] out[b]).interaction_id
        }),
    decreases s.len() - i,
{
    if i < s.len() {
        lemma_first_tombstone(accepted, s[i].interaction_id, 0);
        let out = tree::distinct_tombstones(s, i, accepted)->Ok_0;
        match tree::find_tombstone(accepted, s[i].interaction_id, 0) {
            Some(t) => {
                law_every_tombstone_counts_once(s, i + 1, accepted);
                assert(out.contains(s[i]));
            },
            None => {
                let next = accepted.push(s[i]);
                law_every_tombstone_counts_once(s, i + 1, next);
                assert(next[accepted.len() as int] == s[i]);
                assert(next.contains(s[i]));
                assert forall|t: TombstoneModel| #[trigger] accepted.contains(t) implies out.contains(
                    t,
                ) by {
                    let k = choose|k: int| 0 <= k < accepted.len() && accepted[k] == t;
                    assert(next[k] == t);
                    assert(next.contains(t));
                }
                assert forall|t: TombstoneModel| #[trigger] out.contains(t) implies accepted.contains(
                    t,
                ) || exists|j: int| i <= j < s.len() && #[trigger] s[j] == t by {
                    if next.contains(t) {
                        let k = choose|k: int| 0 <= k < next.len() && next[k] == t;
                        if k < accepted.len() {
                            assert(accepted[k] == t);
                        } else {
                            assert(s[i] == t);
                        }
                    }
                }
            },
        }
    }
}

proof fn lemma_tombstone_leaves(
    shard: Seq<char>,
    leaves: Seq<LeafModel<TombstoneModel>>,
    i: int,
    out: Seq<TombstoneModel>,
    total: int,
    limits: SyncReadLimits,
)
    requires
        0 <= i <= leaves.len(),
        tree::tombstone_leaves(shard, leaves, i, out, total, limits) is Ok,
    ensures
        ({
            let done = tree::tombstone_leaves(shard, leaves, i, out, total, limits)->Ok_0.0;
            &&& done.len() == out.len() + leaves.len() - i
            &&& forall|k: int| 0 <= k < out.len() ==> #[trigger] done[k] == out[k]
            &&& forall|j: int|
                i <= j < leaves.len() ==> (#[trigger] leaves[j]).record == Some(
                    done[out.len() + j - i],
                ) && leaves[j].name == done[out.len() + j - i].interaction_id.text() + ".json"@
        }),
    decreases leaves.len() - i,
{
    if i < leaves.len() {
        let one = tree::tombstone_leaf(shard, leaves[i], out, total, limits)->Ok_0;
        lemma_file_of_stem(leaves[i].name);
        lemma_tombstone_leaves(shard, leaves, i + 1, one.0, one.1, limits);
        let done = tree::tombstone_leaves(shard, leaves, i, out, total, limits)->Ok_0.0;
        assert(one.0 == out.push(leaves[i].record->0));
        assert(done[out.len() as int] == one.0[out.len() as int]);
        assert forall|k: int| 0 <= k < out.len() implies #[trigger] done[k] == out[k] by {
            assert(one.0[k] == out[k]);
        }
    }
}

proof fn lemma_tombstone_shards(
    shards: Seq<ShardModel<TombstoneModel>>,
    k: int,
    out: Seq<TombstoneModel>,
    total: int,
    limits: SyncReadLimits,
)
    requires
        0 <= k <= shards.len(),
        tree::tombstone_shards(shards, k, out, total, limits) is Ok,
    ensures
        ({
            let done = tree::tombstone_shards(shards, k, out, total, limits)->Ok_0.0;
            &&& done.len() >= out.len()
            &&& forall|m: int| 0 <= m < out.len() ==> #[trigger] done[m] == out[m]
            &&& forall|s: int, j: int|
                k <= s < shards.len() && 0 <= j < shards[s].leaves.len() ==> (
                #[trigger] shards[s].leaves[j]).record is Some && done.contains(
                    shards[s].leaves[j].record->0,
                )
            &&& forall|t: TombstoneModel| #[trigger]
                done.contains(t) ==> out.contains(t) || exists|s: int, j: int|
                    k <= s < shards.len() && 0 <= j < shards[s].leaves.len() && (
                    #[trigger] shards[s].leaves[j]).record == Some(t)
        }),
    decreases shards.len() - k,
{
    if k < shards.len() {
        let one = tree::tombstone_leaves(
            shards[k].name,
            shards[k].leaves,
            0,
            out,
            total,
            limits,
        )->Ok_0;
        lemma_tombstone_leaves(shards[k].name, shards[k].leaves, 0, out, total, limits);
        lemma_tombstone_shards(shards, k + 1, one.0, one.1, limits);
        let done = tree::tombstone_shards(shards, k, out, total, limits)->Ok_0.0;
        assert forall|m: int| 0 <= m < out.len() implies #[trigger] done[m] == out[m] by {
            assert(one.0[m] == out[m]);
        }
        assert forall|s: int, j: int|
            k <= s < shards.len() && 0 <= j < shards[s].leaves.len() implies (
        #[trigger] shards[s].leaves[j]).record is Some && done.contains(
            shards[s].leaves[j].record->0,
        ) by {
            if s == k {
                assert(shards[k].leaves[j].record == Some(one.0[out.len() + j]));
                assert(done[out.len() + j] == one.0[out.len() + j]);
            }
        }
        assert forall|t: TombstoneModel| #[trigger] done.contains(t) implies out.contains(t)
            || exists|s: int, j: int|
            k <= s < shards.len() && 0 <= j < shards[s].leaves.len() && (
            #[trigger] shards[s].leaves[j]).record == Some(t) by {
            if one.0.contains(t) {
                let m = choose|m: int| 0 <= m < one.0.len() && one.0[m] == t;
                if m < out.len() {
                    assert(out[m] == t);
                } else {
                    assert(shards[k].leaves[m - out.len()].record == Some(one.0[m]));
                }
            } else {
                let (s, j) = choose|s: int, j: int|
                    k + 1 <= s < shards.len() && 0 <= j < shards[s].leaves.len() && (
                    #[trigger] shards[s].leaves[j]).record == Some(t);
                assert(shards[s].leaves[j].record == Some(t));
            }
        }
    }
}

/// Every tombstone of a tree is read, and nothing else is taken for one.
pub proof fn law_every_tombstone_is_read(
    n: NamespaceModel<TombstoneModel>,
    limits: SyncReadLimits,
)
    requires
        tree::read_tombstones(Some(n), limits) is Ok,
    ensures
        ({
            let out = tree::read_tombstones(Some(n), limits)->Ok_0;
            &&& forall|s: int, j: int|
                0 <= s < n.shards.len() && 0 <= j < n.shards[s].leaves.len() ==> (
                #[trigger] n.shards[s].leaves[j]).record is Some && out.contains(
                    n.shards[s].leaves[j].record->0,
                )
            &&& forall|t: TombstoneModel| #[trigger]
                out.contains(t) ==> exists|s: int, j: int|
                    0 <= s < n.shards.len() && 0 <= j < n.shards[s].leaves.len() && (
                    #[trigger] n.shards[s].leaves[j]).record == Some(t)
            &&& forall|a: int, b: int|
                0 <= a < b < out.len() ==> (#[trigger] out[a]).interaction_id != (
                #[trigger] out[b]).interaction_id
        }),
{
    lemma_tombstone_shards(n.shards, 0, Seq::empty(), 0, limits);
    let all = tree::tombstone_shards(n.shards, 0, Seq::empty(), 0, limits)->Ok_0.0;
    law_every_tombstone_counts_once(all, 0, Seq::empty());
    let out = tree::read_tombstones(Some(n), limits)->Ok_0;
    assert forall|s: int, j: int|
        0 <= s < n.shards.len() && 0 <= j < n.shards[s].leaves.len() implies (
    #[trigger] n.shards[s].leaves[j]).record is Some && out.contains(
        n.shards[s].leaves[j].record->0,
    ) by {
        let t = n.shards[s].leaves[j].record->0;
        assert(all.contains(t));
        let m = choose|m: int| 0 <= m < all.len() && all[m] == t;
        assert(out.contains(all[m]));
    }
    assert forall|t: TombstoneModel| #[trigger] out.contains(t) implies exists|s: int, j: int|
        0 <= s < n.shards.len() && 0 <= j < n.shards[s].leaves.len() && (
        #[trigger] n.shards[s].leaves[j]).record == Some(t) by {
        let m = choose|m: int| 0 <= m < all.len() && #[trigger] all[m] == t;
        assert(all.contains(t));
    }
}

proof fn lemma_pointer_leaves(
    commit: Seq<char>,
    leaves: Seq<LeafModel<()>>,
    i: int,
    out: Set<Seq<char>>,
)
    requires
        0 <= i <= leaves.len(),
        tree::pointer_leaves(commit, leaves, i, out) is Ok,
    ensures
        forall|x: Seq<char>| #[trigger]
            tree::pointer_leaves(commit, leaves, i, out)->Ok_0.contains(x) <==> out.contains(x)
                || exists|j: int|
                i <= j < leaves.len() && x == commit + "/"@ + (#[trigger] leaves[j]).name,
    decreases leaves.len() - i,
{
    if i < leaves.len() {
        let one = tree::pointer_leaf(commit, leaves[i], out)->Ok_0;
        lemma_pointer_leaves(commit, leaves, i + 1, one);
        let done = tree::pointer_leaves(commit, leaves, i, out)->Ok_0;
        assert forall|x: Seq<char>| #[trigger] done.contains(x) <==> out.contains(x) || exists|
            j: int,
        |
            i <= j < leaves.len() && x == commit + "/"@ + (#[trigger] leaves[j]).name by {
            if exists|j: int|
                i <= j < leaves.len() && x == commit + "/"@ + (#[trigger] leaves[j]).name {
                let j = choose|j: int|
                    i <= j < leaves.len() && x == commit + "/"@ + (#[trigger] leaves[j]).name;
                if j > i {
                    assert(x == commit + "/"@ + leaves[j].name);
                }
            }
            if one.contains(x) && !out.contains(x) {
                assert(x == commit + "/"@ + leaves[i].name);
            }
        }
    }
}

proof fn lemma_pointer_shards(shards: Seq<ShardModel<()>>, k: int, out: Set<Seq<char>>)
    requires
        0 <= k <= shards.len(),
        tree::pointer_shards(shards, k, out) is Ok,
    ensures
        forall|x: Seq<char>| #[trigger]
            tree::pointer_shards(shards, k, out)->Ok_0.contains(x) <==> out.contains(x) || exists|
                s: int,
                j: int,
            |
                k <= s < shards.len() && 0 <= j < shards[s].leaves.len() && x == shards[s].name
                    + "/"@ + (#[trigger] shards[s].leaves[j]).name,
    decreases shards.len() - k,
{
    if k < shards.len() {
        let one = tree::pointer_leaves(shards[k].name, shards[k].leaves, 0, out)->Ok_0;
        lemma_pointer_leaves(shards[k].name, shards[k].leaves, 0, out);
        lemma_pointer_shards(shards, k + 1, one);
        let done = tree::pointer_shards(shards, k, out)->Ok_0;
        assert forall|x: Seq<char>| #[trigger] done.contains(x) <==> out.contains(x) || exists|
            s: int,
            j: int,
        |
            k <= s < shards.len() && 0 <= j < shards[s].leaves.len() && x == shards[s].name + "/"@
                + (#[trigger] shards[s].leaves[j]).name by {
            if one.contains(x) && !out.contains(x) {
                let j = choose|j: int|
                    0 <= j < shards[k].leaves.len() && x == shards[k].name + "/"@ + (
                    #[trigger] shards[k].leaves[j]).name;
                assert(x == shards[k].name + "/"@ + shards[k].leaves[j].name);
            }
            if done.contains(x) && !one.contains(x) {
                let (s, j) = choose|s: int, j: int|
                    k + 1 <= s < shards.len() && 0 <= j < shards[s].leaves.len() && x
                        == shards[s].name + "/"@ + (#[trigger] shards[s].leaves[j]).name;
                assert(x == shards[s].name + "/"@ + shards[s].leaves[j].name);
            }
            if exists|s: int, j: int|
                k <= s < shards.len() && 0 <= j < shards[s].leaves.len() && x == shards[s].name
                    + "/"@ + (#[trigger] shards[s].leaves[j]).name {
                let (s, j) = choose|s: int, j: int|
                    k <= s < shards.len() && 0 <= j < shards[s].leaves.len() && x == shards[s].name
                        + "/"@ + (#[trigger] shards[s].leaves[j]).name;
                if s == k {
                    assert(one.contains(x));
                }
            }
        }
    }
}

/// The index that is read holds the place of every pointer of every commit and nothing
/// else.
pub proof fn law_every_pointer_is_read(n: NamespaceModel<()>)
    requires
        tree::read_index(Some(n)) is Ok,
    ensures
        forall|x: Seq<char>| #[trigger]
            tree::read_index(Some(n))->Ok_0.contains(x) <==> exists|s: int, j: int|
                0 <= s < n.shards.len() && 0 <= j < n.shards[s].leaves.len() && x
                    == n.shards[s].name + "/"@ + (#[trigger] n.shards[s].leaves[j]).name,
{
    lemma_pointer_shards(n.shards, 0, Set::empty());
}

proof fn lemma_blobs_extend(
    entries: Seq<EntryModel>,
    depth: nat,
    i: int,
    found: Seq<(Seq<char>, BlobModel)>,
)
    requires
        0 <= i <= entries.len(),
        tree::node_blobs(entries, depth, i, found) is Ok,
    ensures
        tree::node_blobs(entries, depth, i, Seq::empty()) is Ok,
        tree::node_blobs(entries, depth, i, found)->Ok_0 == found + tree::node_blobs(
            entries,
            depth,
            i,
            Seq::empty(),
        )->Ok_0,
    decreases depth, entries.len() - i,
{
    let none = Seq::<(Seq<char>, BlobModel)>::empty();
    if i < entries.len() {
        let name = entries[i].name->0;
        match entries[i].object {
            ObjectModel::Blob(blob) => match tree::json_stem(name) {
                Some(id) => {
                    let x = (id, blob);
                    lemma_blobs_extend(entries, depth, i + 1, found.push(x));
                    let rest = tree::node_blobs(entries, depth, i + 1, none)->Ok_0;
                    lemma_blobs_any(entries, depth, i + 1, none.push(x));
                    lemma_blobs_extend(entries, depth, i + 1, none.push(x));
                    assert(found.push(x) + rest =~= found + (none.push(x) + rest));
                },
                None => {
                    lemma_blobs_extend(entries, depth, i + 1, found);
                },
            },
            ObjectModel::Tree(sub) => {
                if depth > 0 && !tree::reserved_name(name) {
                    lemma_blobs_extend(sub, (depth - 1) as nat, 0, found);
                    let inner = tree::node_blobs(sub, (depth - 1) as nat, 0, none)->Ok_0;
                    let next = found + inner;
                    lemma_blobs_extend(entries, depth, i + 1, next);
                    let rest = tree::node_blobs(entries, depth, i + 1, none)->Ok_0;
                    lemma_blobs_any(entries, depth, i + 1, inner);
                    lemma_blobs_extend(entries, depth, i + 1, inner);
                    assert((found + inner) + rest =~= found + (inner + rest));
                } else {
                    lemma_blobs_extend(entries, depth, i + 1, found);
                }
            },
            ObjectModel::Other => {
                lemma_blobs_extend(entries, depth, i + 1, found);
            },
        }
    } else {
        assert(found + none =~= found);
    }
}

/// Whether the entries can be read does not depend on what was found before.
proof fn lemma_blobs_any(
    entries: Seq<EntryModel>,
    depth: nat,
    i: int,
    found: Seq<(Seq<char>, BlobModel)>,
)
    requires
        0 <= i <= entries.len(),
        tree::node_blobs(entries, depth, i, Seq::empty()) is Ok,
    ensures
        tree::node_blobs(entries, depth, i, found) is Ok,
    decreases depth, entries.len() - i, 0int,
{
    let none = Seq::<(Seq<char>, BlobModel)>::empty();
    if i < entries.len() {
        let name = entries[i].name->0;
        match entries[i].object {
            ObjectModel::Blob(blob) => match tree::json_stem(name) {
                Some(id) => {
                    lemma_blobs_none(entries, depth, i + 1, none.push((id, blob)));
                    lemma_blobs_any(entries, depth, i + 1, found.push((id, blob)));
                },
                None => {
                    lemma_blobs_any(entries, depth, i + 1, found);
                },
            },
            ObjectModel::Tree(sub) => {
                if depth > 0 && !tree::reserved_name(name) {
                    lemma_blobs_any(sub, (depth - 1) as nat, 0, found);
                    let inner = tree::node_blobs(sub, (depth - 1) as nat, 0, none)->Ok_0;
                    lemma_blobs_none(entries, depth, i + 1, inner);
                    lemma_blobs_any(
                        entries,
                        depth,
                        i + 1,
                        tree::node_blobs(sub, (depth - 1) as nat, 0, found)->Ok_0,
                    );
                } else {
                    lemma_blobs_any(entries, depth, i + 1, found);
                }
            },
            ObjectModel::Other => {
                lemma_blobs_any(entries, depth, i + 1, found);
            },
        }
    }
}

proof fn lemma_blobs_none(
    entries: Seq<EntryModel>,
    depth: nat,
    i: int,
    found: Seq<(Seq<char>, BlobModel)>,
)
    requires
        0 <= i <= entries.len(),
        tree::node_blobs(entries, depth, i, found) is Ok,
    ensures
        tree::node_blobs(entries, depth, i, Seq::empty()) is Ok,
    decreases depth, entries.len() - i, 1int,
{
    let none = Seq::<(Seq<char>, BlobModel)>::empty();
    if i < entries.len() {
        let name = entries[i].name->0;
        match entries[i].object {
            ObjectModel::Blob(blob) => match tree::json_stem(name) {
                Some(id) => {
                    lemma_blobs_none(entries, depth, i + 1, found.push((id, blob)));
                    lemma_blobs_any(entries, depth, i + 1, none.push((id, blob)));
                },
                None => {
                    lemma_blobs_none(entries, depth, i + 1, found);
                },
            },
            ObjectModel::Tree(sub) => {
                if depth > 0 && !tree::reserved_name(name) {
                    lemma_blobs_none(sub, (depth - 1) as nat, 0, found);
                    let inner = tree::node_blobs(sub, (depth - 1) as nat, 0, none)->Ok_0;
                    lemma_blobs_none(
                        entries,
                        depth,
                        i + 1,
                        tree::node_blobs(sub, (depth - 1) as nat, 0, found)->Ok_0,
                    );
                    lemma_blobs_any(entries, depth, i + 1, inner);
                } else {
                    lemma_blobs_none(entries, depth, i + 1, found);
                }
            },
            ObjectModel::Other => {
                lemma_blobs_none(entries, depth, i + 1, found);
            },
        }
    }
}

/// Every interaction of a tree is found: each file with the ending of one, and, as deep
/// as is looked and outside the reserved directories, each that a directory holds.
pub proof fn law_every_interaction_is_found(entries: Seq<EntryModel>, depth: nat, i: int, k: int)
    requires
        0 <= i <= k < entries.len(),
        tree::node_blobs(entries, depth, i, Seq::empty()) is Ok,
    ensures
        ({
            let out = tree::node_blobs(entries, depth, i, Seq::empty())->Ok_0;
            &&& entries[k].name is Some
            &&& forall|stem: Seq<char>|
                entries[k].name == Some(#[trigger] (stem + ".json"@)) && entries[k].object is Blob
                    ==> out.contains((stem, entries[k].object->Blob_0))
            &&& entries[k].object is Tree && depth > 0 && !tree::reserved_name(entries[k].name->0)
                ==> {
                let inner = tree::node_blobs(
                    entries[k].object->Tree_0,
                    (depth - 1) as nat,
                    0,
                    Seq::empty(),
                );
                &&& inner is Ok
                &&& forall|x: (Seq<char>, BlobModel)| #[trigger]
                    inner->Ok_0.contains(x) ==> out.contains(x)
            }
        }),
    decreases k - i,
{
    let none = Seq::<(Seq<char>, BlobModel)>::empty();
    let out = tree::node_blobs(entries, depth, i, none)->Ok_0;
    let name = entries[i].name->0;
    lemma_file_of_stem(name);
    let head = match entries[i].object {
        ObjectModel::Blob(blob) => match tree::json_stem(name) {
            Some(id) => none.push((id, blob)),
            None => none,
        },
        ObjectModel::Tree(sub) => if depth > 0 && !tree::reserved_name(name) {
            tree::node_blobs(sub, (depth - 1) as nat, 0, none)->Ok_0
        } else {
            none
        },
        ObjectModel::Other => none,
    };
    assert(tree::node_blobs(entries, depth, i + 1, head) is Ok && out == tree::node_blobs(
        entries,
        depth,
        i + 1,
        head,
    )->Ok_0);
    lemma_blobs_extend(entries, depth, i + 1, head);
    let rest = tree::node_blobs(entries, depth, i + 1, none)->Ok_0;
    assert(out == head + rest);
    assert forall|x: (Seq<char>, BlobModel)| #[trigger] head.contains(x) implies out.contains(x) by {
        let m = choose|m: int| 0 <= m < head.len() && head[m] == x;
        assert(out[m] == x);
    }
    assert forall|x: (Seq<char>, BlobModel)| #[trigger] rest.contains(x) implies out.contains(x) by {
        let m = choose|m: int| 0 <= m < rest.len() && rest[m] == x;
        assert(out[head.len() + m] == x);
    }
    if i < k {
        law_every_interaction_is_found(entries, depth, i + 1, k);
        assert forall|stem: Seq<char>|
            entries[k].name == Some(#[trigger] (stem + ".json"@)) && entries[k].object is Blob implies out.contains(
            (stem, entries[k].object->Blob_0),
        ) by {
            assert(rest.contains((stem, entries[k].object->Blob_0)));
        }
    } else {
        assert forall|stem: Seq<char>|
            entries[k].name == Some(#[trigger] (stem + ".json"@)) && entries[k].object is Blob implies out.contains(
            (stem, entries[k].object->Blob_0),
        ) by {
            assert(name == stem + ".json"@);
            assert(tree::json_stem(name) == Some(stem));
            assert(head[0] == (stem, entries[k].object->Blob_0));
            assert(head.contains((stem, entries[k].object->Blob_0)));
        }
    }
}

/// Link records that are accepted speak of interactions that are known, and none of
/// them contradicts a link that the store has.
pub proof fn law_accepted_records_contradict_nothing(
    records: Seq<LinkRecordModel>,
    i: int,
    known: Set<Seq<char>>,
    stored: Seq<LinkModel>,
    incoming: Seq<NodeModel>,
)
    requires
        0 <= i <= records.len(),
        sync::records_fault(records, i, known, stored, incoming) is None,
    ensures
        forall|k: int|
            i <= k < records.len() ==> {
                let r = #[trigger] records[k];
                &&& models::parsed_uuid(r.interaction_id) is Some
                &&& known.contains(r.interaction_id)
                &&& forall|m: int|
                    0 <= m < stored.len() && (#[trigger] stored[m]).interaction_id.value
                        == models::parsed_uuid(r.interaction_id)->0 && stored[m].git_commit_hash
                        == r.git_commit_hash ==> stored[m].link_type == r.link_type && (
                    stored[m].linked_by is None || r.linked_by is None || stored[m].linked_by
                        == r.linked_by)
            },
    decreases records.len() - i,
{
    if i < records.len() {
        law_accepted_records_contradict_nothing(records, i + 1, known, stored, incoming);
        let r = records[i];
        assert(sync::record_fault(records, i, known, stored, incoming) is None);
        let id = InteractionId { value: models::parsed_uuid(r.interaction_id)->0 };
        assert forall|m: int|
            0 <= m < stored.len() && (#[trigger] stored[m]).interaction_id.value
                == models::parsed_uuid(r.interaction_id)->0 && stored[m].git_commit_hash
                == r.git_commit_hash implies stored[m].link_type == r.link_type && (
        stored[m].linked_by is None || r.linked_by is None || stored[m].linked_by
            == r.linked_by) by {
            assert(stored[m].interaction_id == id);
            assert(!sync::contradicts(stored[m], r));
        }
    }
}

/// A node is sound exactly where its identities are within bounds and everything in it
/// is about its own interaction and well formed.
pub proof fn law_sound_node_is_about_itself(node: NodeModel)
    ensures
        sync::node_fault(node) is None <==> {
            let id = node.interaction.id;
            &&& 0 < node.interaction.conversation_id.len()
            &&& text::byte_len(node.interaction.conversation_id) <= 256
            &&& node.interaction.source_request_id is None || text::byte_len(
                node.interaction.source_request_id->0,
            ) <= 256
            &&& forall|k: int|
                0 <= k < node.context_items.len() ==> {
                    let c = #[trigger] node.context_items[k];
                    &&& c.interaction_id == id
                    &&& c.git_blob_sha is None || derivation::is_commit_sha(c.git_blob_sha->0)
                    &&& c.start_line is None || c.start_line->0 >= 0
                    &&& c.end_line is None || c.end_line->0 >= 0
                }
            &&& forall|k: int|
                0 <= k < node.tool_executions.len() ==> (
                #[trigger] node.tool_executions[k]).interaction_id == id
            &&& forall|k: int|
                0 <= k < node.artifact_links.len() ==> {
                    let l = #[trigger] node.artifact_links[k];
                    &&& l.interaction_id == id
                    &&& sync::is_oid_text(l.git_commit_hash)
                    &&& l.link_type == "generated"@ || l.link_type == "temporal"@ || l.link_type
                        == "verified"@
                    &&& l.linked_by is None || text::trimmed(l.linked_by->0).len() > 0
                }
        },
{
    let id = node.interaction.id;
    assert forall|k: int| 0 <= k < node.context_items.len() implies (sync::valid_context(
        #[trigger] node.context_items[k],
        id,
    ) <==> {
        let c = node.context_items[k];
        &&& c.interaction_id == id
        &&& c.git_blob_sha is None || derivation::is_commit_sha(c.git_blob_sha->0)
        &&& c.start_line is None || c.start_line->0 >= 0
        &&& c.end_line is None || c.end_line->0 >= 0
    }) by {}
    assert forall|k: int| 0 <= k < node.artifact_links.len() implies (sync::valid_embedded_link(
        #[trigger] node.artifact_links[k],
        id,
    ) <==> {
        let l = node.artifact_links[k];
        &&& l.interaction_id == id
        &&& sync::is_oid_text(l.git_commit_hash)
        &&& l.link_type == "generated"@ || l.link_type == "temporal"@ || l.link_type
            == "verified"@
        &&& l.linked_by is None || text::trimmed(l.linked_by->0).len() > 0
    }) by {}
}

} // verus!
