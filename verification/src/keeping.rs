//! What pruning leaves: everything that has nothing to do with what is pruned.

use crate::derivation;
use crate::import;
use crate::import::TreeModel;
use crate::layout;
use crate::models::{EventModel, InteractionId, RangeModel};
use crate::prune;
use crate::redaction;
use crate::text;
use crate::tree;
use crate::tree::{
    EntryKind, EntryModel, LeafModel, LinkRecordModel, MAX_SYNC_TOTAL_BYTES, NamespaceModel,
    ObjectModel, ShardModel,
};
use vstd::prelude::*;
use vstd::string::*;

verus! {

/// What a filter keeps is what meets its condition.
pub proof fn lemma_filter_is_exact<T>(s: Seq<T>, keep: spec_fn(T) -> bool)
    ensures
        forall|i: int|
            0 <= i < s.len() && keep(#[trigger] s[i]) ==> s.filter(keep).contains(s[i]),
        forall|i: int|
            0 <= i < s.filter(keep).len() ==> s.contains(#[trigger] s.filter(keep)[i]) && keep(
                s.filter(keep)[i],
            ),
    decreases s.len(),
{
    reveal(Seq::filter);
    if s.len() > 0 {
        let p = s.drop_last();
        lemma_filter_is_exact(p, keep);
        let before = p.filter(keep);
        let now = s.filter(keep);
        assert(s.last() == s[s.len() - 1]);
        assert forall|i: int| 0 <= i < s.len() && keep(#[trigger] s[i]) implies now.contains(
            s[i],
        ) by {
            if i < p.len() {
                assert(p[i] == s[i]);
                let m = choose|m: int| 0 <= m < before.len() && before[m] == s[i];
                assert(now[m] == s[i]);
            } else {
                assert(now[now.len() - 1] == s[i]);
            }
        }
        assert forall|i: int| 0 <= i < now.len() implies s.contains(#[trigger] now[i]) && keep(
            now[i],
        ) by {
            if i < before.len() {
                assert(now[i] == before[i]);
                let m = choose|m: int| 0 <= m < p.len() && p[m] == before[i];
                assert(s[m] == now[i]);
            }
        }
    }
}

/// Events that neither belong to a suppressed interaction nor name one, and that
/// derive from no others than such events, survive: whatever set of them is taken,
/// if it is closed under what its events derive from, all of it stays.
pub proof fn law_unrelated_events_survive(
    events: Seq<EventModel>,
    ids: Seq<InteractionId>,
    endpoints: bool,
    good: Set<Seq<char>>,
    k: int,
)
    requires
        forall|i: int|
            0 <= i < events.len() && good.contains((#[trigger] events[i]).event_id)
                ==> !ids.contains(events[i].interaction_id),
        forall|i: int, j: int, d: int|
            0 <= i < events.len() && good.contains(events[i].event_id) && 0 <= j
                < events[i].sources.len() && 0 <= d < ids.len() ==> !text::has_prefix(
                #[trigger] events[i].sources[j],
                "legacy:"@ + (#[trigger] ids[d]).text() + ":"@,
            ) && !(text::has_prefix(events[i].sources[j], "endpoint:"@) && text::has_suffix(
                events[i].sources[j],
                ":"@ + ids[d].text(),
            )),
        forall|i: int, j: int, m: int|
            0 <= i < events.len() && good.contains(events[i].event_id) && 0 <= j
                < events[i].sources.len() && 0 <= m < events.len() && #[trigger] events[i].sources[j]
                == (#[trigger] events[m]).event_id ==> good.contains(events[m].event_id),
        0 <= k < events.len(),
        good.contains(events[k].event_id),
    ensures
        derivation::survivors(events, ids, endpoints).contains(events[k]),
        !derivation::falls(events[k].event_id, events, ids, endpoints),
{
    let set = Set::new(
        |x: Seq<char>|
            !good.contains(x) && exists|m: int|
                0 <= m < events.len() && (#[trigger] events[m]).event_id == x,
    );
    assert(derivation::suppression_closed(set, events, ids, endpoints)) by {
        assert forall|i: int|
            0 <= i < events.len() && (derivation::directly_suppressed(
                #[trigger] events[i],
                ids,
                endpoints,
            ) || derivation::draws_on(events[i], set)) implies set.contains(events[i].event_id) by {
            let e = events[i];
            if good.contains(e.event_id) {
                assert(!ids.contains(e.interaction_id));
                if derivation::directly_suppressed(e, ids, endpoints) {
                    let (j, d) = choose|j: int, d: int|
                        0 <= j < e.sources.len() && 0 <= d < ids.len() && derivation::refers_to(
                            #[trigger] e.sources[j],
                            #[trigger] ids[d],
                            endpoints,
                        );
                    assert(!text::has_prefix(
                        events[i].sources[j],
                        "legacy:"@ + ids[d].text() + ":"@,
                    ));
                    assert(false);
                } else {
                    let j = choose|j: int|
                        0 <= j < e.sources.len() && set.contains(#[trigger] e.sources[j]);
                    let m = choose|m: int|
                        0 <= m < events.len() && (#[trigger] events[m]).event_id == e.sources[j];
                    assert(events[i].sources[j] == events[m].event_id);
                    assert(false);
                }
            }
        }
    }
    assert(!set.contains(events[k].event_id));
    let keep = |e: EventModel| !derivation::falls(e.event_id, events, ids, endpoints);
    lemma_filter_is_exact(events, keep);
    assert(keep(events[k]));
}

/// Nothing survives but what was there, in the order it had.
pub proof fn law_survivors_keep_their_order(
    events: Seq<EventModel>,
    ids: Seq<InteractionId>,
    endpoints: bool,
    a: int,
    b: int,
)
    requires
        0 <= a < b < derivation::survivors(events, ids, endpoints).len(),
    ensures
        exists|i: int, j: int|
            0 <= i < j < events.len() && #[trigger] events[i] == derivation::survivors(
                events,
                ids,
                endpoints,
            )[a] && #[trigger] events[j] == derivation::survivors(events, ids, endpoints)[b],
{
    let keep = |e: EventModel| !derivation::falls(e.event_id, events, ids, endpoints);
    lemma_kept_in_order(events, keep);
    assert(events.filter(keep)[a] == derivation::survivors(events, ids, endpoints)[a]);
    assert(events.filter(keep)[b] == derivation::survivors(events, ids, endpoints)[b]);
}

proof fn lemma_kept_in_order(s: Seq<EventModel>, keep: spec_fn(EventModel) -> bool)
    ensures
        forall|a: int, b: int|
            0 <= a < b < s.filter(keep).len() ==> exists|i: int, j: int|
                0 <= i < j < s.len() && #[trigger] s[i] == #[trigger] s.filter(keep)[a]
                    && #[trigger] s[j] == #[trigger] s.filter(keep)[b],
    decreases s.len(),
{
    reveal(Seq::filter);
    if s.len() > 0 {
        let p = s.drop_last();
        lemma_kept_in_order(p, keep);
        lemma_filter_is_exact(p, keep);
        let before = p.filter(keep);
        let now = s.filter(keep);
        assert forall|a: int, b: int| 0 <= a < b < now.len() implies exists|i: int, j: int|
            0 <= i < j < s.len() && #[trigger] s[i] == #[trigger] now[a] && #[trigger] s[j]
                == #[trigger] now[b] by {
            assert(now[a] == before[a]);
            if b < before.len() {
                assert(now[b] == before[b]);
                let (i, j) = choose|i: int, j: int|
                    0 <= i < j < p.len() && #[trigger] p[i] == before[a] && #[trigger] p[j]
                        == before[b];
                assert(s[i] == now[a] && s[j] == now[b]);
            } else {
                assert(p.contains(before[a]));
                let i = choose|i: int| 0 <= i < p.len() && p[i] == before[a];
                assert(s[i] == now[a] && s[s.len() - 1] == now[b]);
            }
        }
    }
}

proof fn lemma_dead(ids: Seq<InteractionId>, x: Seq<char>)
    ensures
        import::id_texts(ids).contains(x) <==> exists|d: int|
            0 <= d < ids.len() && (#[trigger] ids[d]).text() == x,
{
    let texts = ids.map_values(|i: InteractionId| i.text());
    if texts.contains(x) {
        let d = choose|d: int| 0 <= d < texts.len() && #[trigger] texts[d] == x;
        assert(ids[d].text() == x);
    }
    if exists|d: int| 0 <= d < ids.len() && (#[trigger] ids[d]).text() == x {
        let d = choose|d: int| 0 <= d < ids.len() && (#[trigger] ids[d]).text() == x;
        assert(texts[d] == x);
    }
}

proof fn lemma_other_file(ids: Seq<InteractionId>, name: Option<Seq<char>>)
    requires
        forall|d: int|
            0 <= d < ids.len() ==> name != Some((#[trigger] ids[d]).text() + ".json"@),
    ensures
        !prune::dead_file(name, import::id_texts(ids)),
{
    reveal_strlit(".json");
    if let Some(n) = name {
        if text::has_suffix(n, ".json"@) {
            let stem = n.take(n.len() - 5);
            lemma_dead(ids, stem);
            assert(n =~= stem + ".json"@);
        }
    }
}

/// Pruning takes away what belongs to the suppressed interactions and nothing else.
/// The layout marker and the tombstones stay as they are. Every file and directory of
/// the root that is not a suppressed interaction's stays, and every file of a shard of
/// interactions; so do the links of every other interaction and every pointer to one.
pub proof fn law_pruning_keeps_the_rest(t: TreeModel, ids: Seq<InteractionId>)
    requires
        prune::pruned(t, ids) is Ok,
    ensures
        ({
            let out = prune::pruned(t, ids)->Ok_0;
            &&& out.format == t.format
            &&& out.tombstones == t.tombstones
            &&& forall|i: int|
                0 <= i < t.entries.len() && (#[trigger] t.entries[i]).name != Some("nodes"@) && (
                forall|d: int|
                    0 <= d < ids.len() ==> t.entries[i].name != Some(
                        (#[trigger] ids[d]).text() + ".json"@,
                    )) ==> out.entries.contains(t.entries[i])
            &&& forall|k: int|
                0 <= k < out.entries.len() && (#[trigger] out.entries[k]).name != Some("nodes"@)
                    ==> t.entries.contains(out.entries[k])
            &&& out.links is Some <==> t.links is Some
            &&& t.links matches Some(n) ==> n.kind == EntryKind::Tree ==> out.links->0.kind == n.kind && (
            forall|i: int|
                0 <= i < n.shards.len() && (forall|d: int|
                    0 <= d < ids.len() ==> (#[trigger] n.shards[i]).name != (
                    #[trigger] ids[d]).text()) ==> (out.links->0).shards.contains(n.shards[i])) && (
            forall|i: int|
                0 <= i < (out.links->0).shards.len() ==> n.shards.contains(
                    #[trigger] (out.links->0).shards[i],
                ))
            &&& out.by_commit is Some <==> t.by_commit is Some
            &&& t.by_commit matches Some(n) ==> (out.by_commit->0).kind == n.kind && (
            out.by_commit->0).shards.len() == n.shards.len() && forall|s: int|
                0 <= s < n.shards.len() ==> {
                    let a = #[trigger] n.shards[s];
                    let b = (out.by_commit->0).shards[s];
                    &&& b.name == a.name
                    &&& b.kind == a.kind
                    &&& forall|l: int|
                        0 <= l < a.leaves.len() && (forall|d: int|
                            0 <= d < ids.len() ==> (#[trigger] a.leaves[l]).name != (
                            #[trigger] ids[d]).text()) ==> b.leaves.contains(a.leaves[l])
                    &&& forall|l: int|
                        0 <= l < b.leaves.len() ==> a.leaves.contains(#[trigger] b.leaves[l])
                }
        }),
{
    let out = prune::pruned(t, ids)->Ok_0;
    let dead = import::id_texts(ids);
    let live = |e: EntryModel| !prune::dead_file(e.name, dead);
    let kept = t.entries.filter(live);
    lemma_filter_is_exact(t.entries, live);
    layout::lemma_find_entry(kept, "nodes"@, 0);
    assert forall|i: int|
        0 <= i < t.entries.len() && (#[trigger] t.entries[i]).name != Some("nodes"@) && (forall|
            d: int,
        |
            0 <= d < ids.len() ==> t.entries[i].name != Some(
                (#[trigger] ids[d]).text() + ".json"@,
            )) implies out.entries.contains(t.entries[i]) by {
        lemma_other_file(ids, t.entries[i].name);
        assert(live(t.entries[i]));
        assert(kept.contains(t.entries[i]));
        let m = choose|m: int| 0 <= m < kept.len() && kept[m] == t.entries[i];
        assert(out.entries[m] == kept[m]);
    }
    assert forall|k: int|
        0 <= k < out.entries.len() && (#[trigger] out.entries[k]).name != Some(
            "nodes"@,
        ) implies t.entries.contains(out.entries[k]) by {
        assert(out.entries[k] == kept[k]);
    }
    if let Some(n) = t.links {
        let other = |s: ShardModel<LinkRecordModel>| !dead.contains(s.name);
        lemma_filter_is_exact(n.shards, other);
        assert forall|i: int|
            0 <= i < n.shards.len() && (forall|d: int|
                0 <= d < ids.len() ==> (#[trigger] n.shards[i]).name != (
                #[trigger] ids[d]).text()) implies other(n.shards[i]) by {
            lemma_dead(ids, n.shards[i].name);
        }
    }
    if let Some(n) = t.by_commit {
        assert forall|s: int| 0 <= s < n.shards.len() implies {
            let a = #[trigger] n.shards[s];
            let b = (out.by_commit->0).shards[s];
            &&& b.name == a.name
            &&& b.kind == a.kind
            &&& forall|l: int|
                0 <= l < a.leaves.len() && (forall|d: int|
                    0 <= d < ids.len() ==> (#[trigger] a.leaves[l]).name != (
                    #[trigger] ids[d]).text()) ==> b.leaves.contains(a.leaves[l])
            &&& forall|l: int|
                0 <= l < b.leaves.len() ==> a.leaves.contains(#[trigger] b.leaves[l])
        } by {
            let a = n.shards[s];
            let other = |l: LeafModel<()>| !dead.contains(l.name);
            lemma_filter_is_exact(a.leaves, other);
            assert forall|l: int|
                0 <= l < a.leaves.len() && (forall|d: int|
                    0 <= d < ids.len() ==> (#[trigger] a.leaves[l]).name != (
                    #[trigger] ids[d]).text()) implies other(a.leaves[l]) by {
                lemma_dead(ids, a.leaves[l].name);
            }
        }
    }
}

/// In the directory of interactions every shard stays, and in it every file that is
/// not a suppressed interaction's; no file comes in.
pub proof fn law_pruning_keeps_other_interactions(
    t: TreeModel,
    ids: Seq<InteractionId>,
    i: int,
    s: int,
)
    requires
        prune::pruned(t, ids) is Ok,
        0 <= i < t.entries.len(),
        t.entries[i].name == Some("nodes"@),
        forall|j: int| 0 <= j < i ==> (#[trigger] t.entries[j]).name != Some("nodes"@),
        t.entries[i].object is Tree,
        0 <= s < t.entries[i].object->Tree_0.len(),
    ensures
        ({
            let out = prune::pruned(t, ids)->Ok_0;
            let a = t.entries[i].object->Tree_0[s];
            exists|k: int|
                0 <= k < out.entries.len() && (#[trigger] out.entries[k]).name == Some("nodes"@)
                    && out.entries[k].object is Tree && out.entries[k].object->Tree_0.len()
                    == t.entries[i].object->Tree_0.len() && ({
                    let b = out.entries[k].object->Tree_0[s];
                    &&& b.name == a.name
                    &&& a.object !is Tree ==> b == a
                    &&& a.object is Tree ==> b.object is Tree && (forall|f: int|
                        0 <= f < a.object->Tree_0.len() && (forall|d: int|
                            0 <= d < ids.len() ==> (#[trigger] a.object->Tree_0[f]).name != Some(
                                (#[trigger] ids[d]).text() + ".json"@,
                            )) ==> b.object->Tree_0.contains(a.object->Tree_0[f])) && (forall|
                        f: int,
                    |
                        0 <= f < b.object->Tree_0.len() ==> a.object->Tree_0.contains(
                            #[trigger] b.object->Tree_0[f],
                        ))
                })
        }),
{
    let out = prune::pruned(t, ids)->Ok_0;
    let dead = import::id_texts(ids);
    let live = |e: EntryModel| !prune::dead_file(e.name, dead);
    let kept = t.entries.filter(live);
    reveal_strlit("nodes");
    reveal_strlit(".json");
    assert("nodes"@.skip(0)[0] == 'n' && ".json"@[0] == '.');
    assert(live(t.entries[i]));
    lemma_first_stays(t.entries, live, i);
    layout::lemma_find_entry(kept, "nodes"@, 0);
    let k = layout::find_entry(kept, "nodes"@, 0)->0;
    assert(kept[k] == t.entries[i]);
    assert(out.entries[k].name == Some("nodes"@));
    let a = t.entries[i].object->Tree_0[s];
    if let (Some(p), ObjectModel::Tree(files)) = (a.name, a.object) {
        let other = |f: EntryModel| !prune::dead_in_shard(f.name, p, dead);
        lemma_filter_is_exact(files, other);
        assert forall|f: int|
            0 <= f < files.len() && (forall|d: int|
                0 <= d < ids.len() ==> (#[trigger] files[f]).name != Some(
                    (#[trigger] ids[d]).text() + ".json"@,
                )) implies other(files[f]) by {
            lemma_other_file(ids, files[f].name);
        }
    }
}

/// The first entry of the name that a filter does not touch stays the first.
proof fn lemma_first_stays(entries: Seq<EntryModel>, keep: spec_fn(EntryModel) -> bool, i: int)
    requires
        0 <= i < entries.len(),
        entries[i].name == Some("nodes"@),
        keep(entries[i]),
        forall|j: int| 0 <= j < i ==> (#[trigger] entries[j]).name != Some("nodes"@),
    ensures
        ({
            let kept = entries.filter(keep);
            exists|k: int|
                0 <= k < kept.len() && #[trigger] kept[k] == entries[i] && forall|q: int|
                    0 <= q < k ==> (#[trigger] kept[q]).name != Some("nodes"@)
        }),
    decreases entries.len(),
{
    reveal(Seq::filter);
    let p = entries.drop_last();
    let kept = entries.filter(keep);
    if i < entries.len() - 1 {
        assert forall|j: int| 0 <= j < i implies (#[trigger] p[j]).name != Some("nodes"@) by {
            assert(p[j] == entries[j]);
        }
        lemma_first_stays(p, keep, i);
        let before = p.filter(keep);
        let k = choose|k: int|
            0 <= k < before.len() && #[trigger] before[k] == p[i] && forall|q: int|
                0 <= q < k ==> (#[trigger] before[q]).name != Some("nodes"@);
        assert(kept[k] == entries[i]);
        assert forall|q: int| 0 <= q < k implies (#[trigger] kept[q]).name != Some("nodes"@) by {
            assert(kept[q] == before[q]);
        }
    } else {
        lemma_filter_is_exact(p, keep);
        let before = p.filter(keep);
        let k = before.len() as int;
        assert(kept[k] == entries[i]);
        assert forall|q: int| 0 <= q < k implies (#[trigger] kept[q]).name != Some("nodes"@) by {
            assert(kept[q] == before[q]);
            assert(p.contains(before[q]));
            let m = choose|m: int| 0 <= m < p.len() && p[m] == before[q];
            assert(entries[m].name != Some("nodes"@));
        }
    }
}

/// Pruning keeps every event that has nothing to do with the suppressed interactions:
/// whatever set of events is taken that neither belong to one nor name one, if it is
/// closed under what its events derive from, the files of all of them stay.
pub proof fn law_pruning_keeps_other_events(
    n: NamespaceModel<EventModel>,
    ids: Seq<InteractionId>,
    good: Set<Seq<char>>,
    s: int,
    j: int,
)
    requires
        n.kind == EntryKind::Tree,
        prune::pruned_events(Some(n), ids) is Ok,
        0 <= s < n.shards.len(),
        0 <= j < n.shards[s].leaves.len(),
        n.shards[s].leaves[j].record is Some,
        good.contains(n.shards[s].leaves[j].record->0.event_id),
        ({
            let events = prune::baseline_events(n.shards, 0, Seq::empty())->Ok_0;
            &&& forall|i: int|
                0 <= i < events.len() && good.contains((#[trigger] events[i]).event_id)
                    ==> !ids.contains(events[i].interaction_id)
            &&& forall|i: int, m: int, d: int|
                0 <= i < events.len() && good.contains(events[i].event_id) && 0 <= m
                    < events[i].sources.len() && 0 <= d < ids.len() ==> !text::has_prefix(
                    #[trigger] events[i].sources[m],
                    "legacy:"@ + (#[trigger] ids[d]).text() + ":"@,
                ) && !(text::has_prefix(events[i].sources[m], "endpoint:"@) && text::has_suffix(
                    events[i].sources[m],
                    ":"@ + ids[d].text(),
                ))
            &&& forall|i: int, m: int, q: int|
                0 <= i < events.len() && good.contains(events[i].event_id) && 0 <= m
                    < events[i].sources.len() && 0 <= q < events.len()
                    && #[trigger] events[i].sources[m] == (#[trigger] events[q]).event_id
                    ==> good.contains(events[q].event_id)
        }),
    ensures
        ({
            let out = prune::pruned_events(Some(n), ids)->Ok_0->0;
            &&& out.kind == n.kind
            &&& out.shards.len() == n.shards.len()
            &&& out.shards[s].name == n.shards[s].name
            &&& out.shards[s].kind == n.shards[s].kind
            &&& out.shards[s].leaves.contains(n.shards[s].leaves[j])
        }),
{
    let events = prune::baseline_events(n.shards, 0, Seq::empty())->Ok_0;
    redaction::lemma_baseline_event(n.shards, 0, Seq::empty(), s, j);
    let leaf = n.shards[s].leaves[j];
    let e = leaf.record->0;
    let k = choose|k: int| 0 <= k < events.len() && events[k] == e;
    law_unrelated_events_survive(events, ids, true, good, k);
    let removed = prune::fallen(events, ids);
    let keep = |l: LeafModel<EventModel>| !layout::falls_in(l, removed);
    lemma_filter_is_exact(n.shards[s].leaves, keep);
    assert(keep(leaf));
}

/// Pruning keeps every range that an event that survives refers to.
pub proof fn law_pruning_keeps_referenced_ranges(
    n: NamespaceModel<RangeModel>,
    events: Option<NamespaceModel<EventModel>>,
    ids: Seq<InteractionId>,
    s: int,
    j: int,
    k: int,
)
    requires
        n.kind == EntryKind::Tree,
        prune::pruned_ranges(Some(n), events, ids) is Ok,
        0 <= s < n.shards.len(),
        0 <= j < n.shards[s].leaves.len(),
        n.shards[s].leaves[j].record is Some,
        ({
            let scan = tree::read_events(events, 0, MAX_SYNC_TOTAL_BYTES as int);
            let kept = derivation::survivors(scan->Ok_0.out, ids, false);
            0 <= k < kept.len() && kept[k].range_id == Some(
                n.shards[s].leaves[j].record->0.range_id,
            )
        }),
    ensures
        ({
            let out = prune::pruned_ranges(Some(n), events, ids)->Ok_0->0;
            &&& out.kind == n.kind
            &&& out.shards.len() == n.shards.len()
            &&& out.shards[s].name == n.shards[s].name
            &&& out.shards[s].leaves.contains(n.shards[s].leaves[j])
        }),
{
    let scan = tree::read_events(events, 0, MAX_SYNC_TOTAL_BYTES as int)->Ok_0;
    let kept = derivation::survivors(scan.out, ids, false);
    let named = prune::referenced_ranges(kept);
    let leaf = n.shards[s].leaves[j];
    assert(kept[k].range_id == Some(leaf.record->0.range_id));
    let keep = |l: LeafModel<RangeModel>| layout::referenced_in(l, named);
    lemma_filter_is_exact(n.shards[s].leaves, keep);
    assert(keep(leaf));
}

/// A redaction leaves what pruning leaves; only the index is built anew.
pub proof fn law_redaction_keeps_the_rest(t: TreeModel, id: InteractionId)
    requires
        redaction::redacted_tree(t, id) is Ok,
    ensures
        ({
            let out = redaction::redacted_tree(t, id)->Ok_0.tree;
            let p = prune::pruned(t, seq![id]);
            &&& p is Ok
            &&& out.format == t.format
            &&& out.tombstones == t.tombstones
            &&& out.entries == p->Ok_0.entries
            &&& out.links == p->Ok_0.links
            &&& out.events == p->Ok_0.events
            &&& out.ranges == p->Ok_0.ranges
        }),
{
}

} // verus!
