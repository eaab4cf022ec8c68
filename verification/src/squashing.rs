//! What a squash takes over from its range, and what an import writes.

use crate::batch;
use crate::models;
use crate::models::{
    DerivationOrigin, DerivationRelation, EventModel, EvidenceKind, InteractionId, RangeModel,
    RangeSourceModel,
};
use crate::order;
use crate::squash;
use crate::squash::ScanModel;
use crate::textset;
use crate::tree::{LinkRecordModel, NodeModel};
use vstd::prelude::*;

verus! {

proof fn lemma_sources_listed(s: Seq<RangeSourceModel>, id: InteractionId, k: nat)
    requires
        k <= s.len(),
    ensures
        forall|x: Seq<char>| #[trigger]
            squash::ids_of(s, id, k).contains(x) <==> exists|i: int|
                0 <= i < k && (#[trigger] s[i]).interaction_id == id && s[i].source_id == x,
    decreases k,
{
    if k > 0 {
        lemma_sources_listed(s, id, (k - 1) as nat);
        let before = squash::ids_of(s, id, (k - 1) as nat);
        let now = squash::ids_of(s, id, k);
        assert forall|x: Seq<char>| #[trigger] now.contains(x) <==> exists|i: int|
            0 <= i < k && (#[trigger] s[i]).interaction_id == id && s[i].source_id == x by {
            if now.contains(x) {
                let m = choose|m: int| 0 <= m < now.len() && now[m] == x;
                if m < before.len() {
                    assert(before[m] == x);
                    assert(before.contains(x));
                    let i = choose|i: int|
                        0 <= i < k - 1 && (#[trigger] s[i]).interaction_id == id && s[i].source_id
                            == x;
                    assert(s[i].source_id == x);
                } else {
                    assert(s[k - 1].source_id == x);
                }
            }
            if exists|i: int|
                0 <= i < k && (#[trigger] s[i]).interaction_id == id && s[i].source_id == x {
                let i = choose|i: int|
                    0 <= i < k && (#[trigger] s[i]).interaction_id == id && s[i].source_id == x;
                if i < k - 1 {
                    assert(before.contains(x));
                    let m = choose|m: int| 0 <= m < before.len() && before[m] == x;
                    assert(now[m] == x);
                } else {
                    assert(now[before.len() as int] == x);
                }
            }
        }
    }
}

proof fn lemma_squash_event(
    candidate: Seq<char>,
    range_id: Seq<char>,
    s: Seq<RangeSourceModel>,
    k: int,
)
    requires
        0 <= k < squash::squash_events(candidate, range_id, s).len(),
    ensures
        ({
            let e = squash::squash_events(candidate, range_id, s)[k];
            &&& e.interaction_id.text() == order::sorted_set(squash::interaction_texts(s))[k]
            &&& squash::interaction_texts(s).contains(e.interaction_id.text())
            &&& e.target_commit == candidate
            &&& e.relation == DerivationRelation::SquashExact
            &&& e.evidence.version == 1
            &&& e.evidence.kind == EvidenceKind::LocallyObserved
            &&& e.origin == DerivationOrigin::LocalHook
            &&& e.old_oid is None
            &&& e.new_oid is None
            &&& e.linked_by is None
            &&& e.range_id == Some(range_id)
            &&& e.event_id == models::event_identity(e)
            &&& order::strictly_sorted(e.sources)
            &&& forall|x: Seq<char>| #[trigger]
                e.sources.contains(x) <==> exists|i: int|
                    0 <= i < s.len() && (#[trigger] s[i]).interaction_id == e.interaction_id
                        && s[i].source_id == x
        }),
{
    let named = squash::interaction_texts(s);
    let keys = order::sorted_set(named);
    order::lemma_sorted_set(named);
    let key = keys[k];
    assert(keys.contains(key));
    assert(named.contains(key));
    textset::lemma_position_of(named, key, 0);
    let at = textset::position_of(named, key, 0)->0;
    assert(named[at] == key);
    let id = squash::interaction_named(s, key);
    assert(s[at].interaction_id == id);
    let e = squash::squash_events(candidate, range_id, s)[k];
    assert(e == squash::squash_event(candidate, range_id, id, squash::squash_ids(s, id)));
    order::lemma_sorted_set(squash::ids_of(s, id, s.len()));
    lemma_sources_listed(s, id, s.len());
    assert(models::event_payload(e) == models::event_payload(EventModel { event_id: Seq::empty(), ..e }));
}

/// A squash takes over every source of its range: the commit gets one exact event for
/// each interaction, which cites all sources that the range has for it and no other,
/// and nothing that the range does not have is claimed.
pub proof fn law_squash_takes_over_every_source(
    candidate: Seq<char>,
    range_id: Seq<char>,
    s: Seq<RangeSourceModel>,
)
    ensures
        ({
            let events = squash::squash_events(candidate, range_id, s);
            &&& forall|i: int|
                0 <= i < s.len() ==> exists|k: int|
                    0 <= k < events.len() && (#[trigger] events[k]).interaction_id == (
                    #[trigger] s[i]).interaction_id && events[k].sources.contains(s[i].source_id)
            &&& forall|e: EventModel, x: Seq<char>|
                #![trigger events.contains(e), e.sources.contains(x)]
                events.contains(e) && e.sources.contains(x) ==> exists|i: int|
                    0 <= i < s.len() && (#[trigger] s[i]).interaction_id == e.interaction_id
                        && s[i].source_id == x
            &&& forall|k: int|
                0 <= k < events.len() ==> {
                    let e = #[trigger] events[k];
                    &&& e.sources.len() > 0
                    &&& order::strictly_sorted(e.sources)
                    &&& e.target_commit == candidate
                    &&& e.range_id == Some(range_id)
                    &&& e.relation == DerivationRelation::SquashExact
                    &&& e.origin == DerivationOrigin::LocalHook
                    &&& e.evidence.version == 1
                    &&& e.evidence.kind == EvidenceKind::LocallyObserved
                    &&& e.old_oid is None
                    &&& e.new_oid is None
                    &&& e.linked_by is None
                    &&& e.event_id == models::event_identity(e)
                }
            &&& forall|a: int, b: int|
                0 <= a < b < events.len() ==> order::text_lt(
                    (#[trigger] events[a]).interaction_id.text(),
                    (#[trigger] events[b]).interaction_id.text(),
                )
        }),
{
    let events = squash::squash_events(candidate, range_id, s);
    let named = squash::interaction_texts(s);
    let keys = order::sorted_set(named);
    order::lemma_sorted_set(named);
    assert forall|i: int| 0 <= i < s.len() implies exists|k: int|
        0 <= k < events.len() && (#[trigger] events[k]).interaction_id == (
        #[trigger] s[i]).interaction_id && events[k].sources.contains(s[i].source_id) by {
        let id = s[i].interaction_id;
        assert(named[i] == id.text());
        assert(named.contains(id.text()));
        assert(keys.contains(id.text()));
        let k = choose|k: int| 0 <= k < keys.len() && keys[k] == id.text();
        lemma_squash_event(candidate, range_id, s, k);
        models::lemma_uuid_text_injective(events[k].interaction_id.value, id.value);
        assert(events[k].interaction_id == id);
        assert(events[k].sources.contains(s[i].source_id));
    }
    assert forall|e: EventModel, x: Seq<char>|
        #![trigger events.contains(e), e.sources.contains(x)]
        events.contains(e) && e.sources.contains(x) implies exists|i: int|
        0 <= i < s.len() && (#[trigger] s[i]).interaction_id == e.interaction_id && s[i].source_id
            == x by {
        let k = choose|k: int| 0 <= k < events.len() && events[k] == e;
        lemma_squash_event(candidate, range_id, s, k);
    }
    assert forall|k: int| 0 <= k < events.len() implies {
        let e = #[trigger] events[k];
        &&& e.sources.len() > 0
        &&& order::strictly_sorted(e.sources)
        &&& e.target_commit == candidate
        &&& e.range_id == Some(range_id)
        &&& e.relation == DerivationRelation::SquashExact
        &&& e.origin == DerivationOrigin::LocalHook
        &&& e.evidence.version == 1
        &&& e.evidence.kind == EvidenceKind::LocallyObserved
        &&& e.old_oid is None
        &&& e.new_oid is None
        &&& e.linked_by is None
        &&& e.event_id == models::event_identity(e)
    } by {
        lemma_squash_event(candidate, range_id, s, k);
        let e = events[k];
        let i = choose|i: int| 0 <= i < named.len() && named[i] == e.interaction_id.text();
        models::lemma_uuid_text_injective(e.interaction_id.value, s[i].interaction_id.value);
        assert(s[i].interaction_id == e.interaction_id);
        assert(e.sources.contains(s[i].source_id));
    }
    assert forall|a: int, b: int| 0 <= a < b < events.len() implies order::text_lt(
        (#[trigger] events[a]).interaction_id.text(),
        (#[trigger] events[b]).interaction_id.text(),
    ) by {
        lemma_squash_event(candidate, range_id, s, a);
        lemma_squash_event(candidate, range_id, s, b);
        assert(order::text_lt(keys[a], keys[b]));
    }
}

spec fn ascending(s: Seq<RangeSourceModel>) -> bool {
    forall|a: int, b: int| 0 <= a < b < s.len() ==> precedes(#[trigger] s[a], #[trigger] s[b])
}

spec fn precedes(a: RangeSourceModel, b: RangeSourceModel) -> bool {
    if a.interaction_id != b.interaction_id {
        order::text_lt(a.interaction_id.text(), b.interaction_id.text())
    } else {
        order::text_lt(a.source_id, b.source_id)
    }
}

proof fn lemma_precedes(a: RangeSourceModel, b: RangeSourceModel, c: RangeSourceModel)
    ensures
        precedes(a, b) && precedes(b, c) ==> precedes(a, c),
        precedes(a, b) ==> !(a.interaction_id == b.interaction_id && a.source_id == b.source_id),
        !precedes(a, b) && !(a.interaction_id == b.interaction_id && a.source_id == b.source_id)
            ==> precedes(b, a),
{
    order::lemma_text_order(a.interaction_id.text(), b.interaction_id.text());
    order::lemma_text_order(b.interaction_id.text(), c.interaction_id.text());
    order::lemma_text_order(a.interaction_id.text(), c.interaction_id.text());
    order::lemma_text_order(a.source_id, b.source_id);
    if order::text_lt(a.interaction_id.text(), b.interaction_id.text()) && order::text_lt(
        b.interaction_id.text(),
        c.interaction_id.text(),
    ) {
        order::lemma_text_lt_transitive(
            a.interaction_id.text(),
            b.interaction_id.text(),
            c.interaction_id.text(),
        );
    }
    if order::text_lt(a.source_id, b.source_id) && order::text_lt(b.source_id, c.source_id) {
        order::lemma_text_lt_transitive(a.source_id, b.source_id, c.source_id);
    }
    if a.interaction_id.text() == b.interaction_id.text() {
        models::lemma_uuid_text_injective(a.interaction_id.value, b.interaction_id.value);
    }
    if a.interaction_id.text() == c.interaction_id.text() {
        models::lemma_uuid_text_injective(a.interaction_id.value, c.interaction_id.value);
    }
}

spec fn about(s: Seq<RangeSourceModel>, x: RangeSourceModel) -> bool {
    exists|k: int|
        0 <= k < s.len() && (#[trigger] s[k]).interaction_id == x.interaction_id && s[k].source_id
            == x.source_id
}

proof fn lemma_source_inserted(s: Seq<RangeSourceModel>, x: RangeSourceModel)
    requires
        ascending(s),
    ensures
        ascending(squash::source_insert(s, x)),
        forall|y: RangeSourceModel| #[trigger]
            squash::source_insert(s, x).contains(y) <==> s.contains(y) || (y == x && !about(s, x)),
    decreases s.len(),
{
    let out = squash::source_insert(s, x);
    if s.len() == 0 {
        assert(out[0] == x);
    } else {
        let p = s.drop_last();
        let z = s.last();
        assert(z == s[s.len() - 1]);
        assert forall|a: int| 0 <= a < p.len() implies precedes(#[trigger] p[a], z) by {
            assert(precedes(s[a], s[s.len() - 1]));
        }
        assert(ascending(p)) by {
            assert forall|a: int, b: int| 0 <= a < b < p.len() implies precedes(
                #[trigger] p[a],
                #[trigger] p[b],
            ) by {
                assert(precedes(s[a], s[b]));
            }
        }
        lemma_precedes(z, x, z);
        lemma_precedes(x, z, x);
        if squash::same_source(z, x) {
            assert(about(s, x));
        } else if squash::source_lt(z, x) {
            assert(precedes(z, x));
            assert forall|a: int| 0 <= a < s.len() implies precedes(#[trigger] s[a], x) by {
                if a < p.len() {
                    assert(precedes(p[a], z));
                    lemma_precedes(s[a], z, x);
                }
            }
            if about(s, x) {
                let k = choose|k: int|
                    0 <= k < s.len() && (#[trigger] s[k]).interaction_id == x.interaction_id
                        && s[k].source_id == x.source_id;
                assert(precedes(s[k], x));
                lemma_precedes(s[k], x, x);
            }
            assert forall|y: RangeSourceModel| #[trigger] out.contains(y) <==> s.contains(y) || y
                == x by {
                if s.contains(y) {
                    let k = choose|k: int| 0 <= k < s.len() && s[k] == y;
                    assert(out[k] == y);
                }
                assert(out[s.len() as int] == x);
                if out.contains(y) {
                    let k = choose|k: int| 0 <= k < out.len() && out[k] == y;
                    if k < s.len() {
                        assert(s[k] == y);
                    }
                }
            }
        } else {
            lemma_source_inserted(p, x);
            let q = squash::source_insert(p, x);
            assert(precedes(x, z));
            assert(about(s, x) <==> about(p, x)) by {
                if about(s, x) {
                    let k = choose|k: int|
                        0 <= k < s.len() && (#[trigger] s[k]).interaction_id == x.interaction_id
                            && s[k].source_id == x.source_id;
                    assert(p[k].source_id == x.source_id);
                }
                if about(p, x) {
                    let k = choose|k: int|
                        0 <= k < p.len() && (#[trigger] p[k]).interaction_id == x.interaction_id
                            && p[k].source_id == x.source_id;
                    assert(s[k].source_id == x.source_id);
                }
            }
            assert forall|a: int| 0 <= a < q.len() implies precedes(#[trigger] q[a], z) by {
                assert(q.contains(q[a]));
                if p.contains(q[a]) {
                    let k = choose|k: int| 0 <= k < p.len() && p[k] == q[a];
                    assert(precedes(p[k], z));
                }
            }
            assert(ascending(out));
            assert forall|y: RangeSourceModel| #[trigger] out.contains(y) <==> s.contains(y) || (y
                == x && !about(s, x)) by {
                if out.contains(y) {
                    let k = choose|k: int| 0 <= k < out.len() && out[k] == y;
                    if k < q.len() {
                        assert(q[k] == y);
                        assert(q.contains(y));
                        if p.contains(y) {
                            let m = choose|m: int| 0 <= m < p.len() && p[m] == y;
                            assert(s[m] == y);
                        }
                    } else {
                        assert(s[s.len() - 1] == y);
                    }
                }
                if s.contains(y) {
                    let m = choose|m: int| 0 <= m < s.len() && s[m] == y;
                    if m < p.len() {
                        assert(p[m] == y);
                        assert(q.contains(y));
                        let k = choose|k: int| 0 <= k < q.len() && q[k] == y;
                        assert(out[k] == y);
                    } else {
                        assert(out[q.len() as int] == y);
                    }
                }
                if y == x && !about(s, x) {
                    assert(q.contains(y));
                    let k = choose|k: int| 0 <= k < q.len() && q[k] == y;
                    assert(out[k] == y);
                }
            }
        }
    }
}

proof fn lemma_gathered(s: Seq<RangeSourceModel>)
    ensures
        ascending(squash::gathered(s)),
        forall|x: RangeSourceModel| #[trigger]
            squash::gathered(s).contains(x) <==> exists|i: int|
                0 <= i < s.len() && #[trigger] s[i] == x && !about(s.take(i), x),
    decreases s.len(),
{
    if s.len() > 0 {
        let p = s.drop_last();
        let z = s.last();
        lemma_gathered(p);
        let before = squash::gathered(p);
        let out = squash::gathered(s);
        lemma_source_inserted(before, z);
        assert(about(before, z) <==> about(p, z)) by {
            if about(before, z) {
                let k = choose|k: int|
                    0 <= k < before.len() && (#[trigger] before[k]).interaction_id
                        == z.interaction_id && before[k].source_id == z.source_id;
                assert(before.contains(before[k]));
                let i = choose|i: int|
                    0 <= i < p.len() && #[trigger] p[i] == before[k] && !about(p.take(i), before[k]);
                assert(p[i].source_id == z.source_id);
            }
            if about(p, z) {
                assert(p.take(p.len() as int) =~= p);
                lemma_first_about(p, z, p.len());
                let i = choose|i: int|
                    0 <= i < p.len() && (#[trigger] p[i]).interaction_id == z.interaction_id
                        && p[i].source_id == z.source_id && !about(p.take(i), p[i]);
                assert(before.contains(p[i]));
                let k = choose|k: int| 0 <= k < before.len() && before[k] == p[i];
                assert(before[k].source_id == z.source_id);
            }
        }
        assert forall|x: RangeSourceModel| #[trigger] out.contains(x) <==> exists|i: int|
            0 <= i < s.len() && #[trigger] s[i] == x && !about(s.take(i), x) by {
            if out.contains(x) {
                if before.contains(x) {
                    let i = choose|i: int|
                        0 <= i < p.len() && #[trigger] p[i] == x && !about(p.take(i), x);
                    assert(s.take(i) =~= p.take(i));
                    assert(s[i] == x);
                } else {
                    assert(s.take(s.len() - 1) =~= p);
                    assert(s[s.len() - 1] == x);
                }
            }
            if exists|i: int| 0 <= i < s.len() && #[trigger] s[i] == x && !about(s.take(i), x) {
                let i = choose|i: int|
                    0 <= i < s.len() && #[trigger] s[i] == x && !about(s.take(i), x);
                if i < p.len() {
                    assert(s.take(i) =~= p.take(i));
                    assert(p[i] == x);
                    assert(before.contains(x));
                } else {
                    assert(s.take(i) =~= p);
                }
            }
        }
    }
}

proof fn lemma_first_about(s: Seq<RangeSourceModel>, x: RangeSourceModel, n: nat)
    requires
        n <= s.len(),
        about(s.take(n as int), x),
    ensures
        exists|i: int|
            0 <= i < n && (#[trigger] s[i]).interaction_id == x.interaction_id && s[i].source_id
                == x.source_id && !about(s.take(i), s[i]),
    decreases n,
{
    let now = s.take(n as int);
    let k = choose|k: int|
        0 <= k < now.len() && (#[trigger] now[k]).interaction_id == x.interaction_id
            && now[k].source_id == x.source_id;
    assert(s[k] == now[k]);
    if about(s.take(k), s[k]) {
        assert(about(s.take(k), x)) by {
            let m = choose|m: int|
                0 <= m < s.take(k).len() && (#[trigger] s.take(k)[m]).interaction_id
                    == s[k].interaction_id && s.take(k)[m].source_id == s[k].source_id;
            assert(s.take(k)[m].source_id == x.source_id);
        }
        lemma_first_about(s, x, k as nat);
    }
}

/// The sources of a range are gathered each once: every source of every interaction
/// is there, as it was found first, and the list ascends by interaction and source.
pub proof fn law_every_source_is_gathered_once(s: Seq<RangeSourceModel>)
    ensures
        ({
            let out = squash::gathered(s);
            &&& forall|i: int|
                0 <= i < s.len() && (forall|q: int|
                    0 <= q < i ==> !((#[trigger] s[q]).interaction_id == s[i].interaction_id
                        && s[q].source_id == s[i].source_id)) ==> out.contains(#[trigger] s[i])
            &&& forall|x: RangeSourceModel| #[trigger]
                out.contains(x) ==> exists|i: int|
                    0 <= i < s.len() && #[trigger] s[i] == x && forall|q: int|
                        0 <= q < i ==> !((#[trigger] s[q]).interaction_id == x.interaction_id
                            && s[q].source_id == x.source_id)
            &&& forall|a: int, b: int|
                0 <= a < b < out.len() ==> if (#[trigger] out[a]).interaction_id != (
                #[trigger] out[b]).interaction_id {
                    order::text_lt(out[a].interaction_id.text(), out[b].interaction_id.text())
                } else {
                    order::text_lt(out[a].source_id, out[b].source_id)
                }
        }),
{
    let out = squash::gathered(s);
    lemma_gathered(s);
    assert forall|i: int|
        0 <= i < s.len() && (forall|q: int|
            0 <= q < i ==> !((#[trigger] s[q]).interaction_id == s[i].interaction_id
                && s[q].source_id == s[i].source_id)) implies out.contains(#[trigger] s[i]) by {
        assert(!about(s.take(i), s[i])) by {
            if about(s.take(i), s[i]) {
                let k = choose|k: int|
                    0 <= k < i && (#[trigger] s.take(i)[k]).interaction_id == s[i].interaction_id
                        && s.take(i)[k].source_id == s[i].source_id;
                assert(s[k].source_id == s[i].source_id);
            }
        }
    }
    assert forall|x: RangeSourceModel| #[trigger] out.contains(x) implies exists|i: int|
        0 <= i < s.len() && #[trigger] s[i] == x && forall|q: int|
            0 <= q < i ==> !((#[trigger] s[q]).interaction_id == x.interaction_id && s[q].source_id
                == x.source_id) by {
        let i = choose|i: int|
            0 <= i < s.len() && #[trigger] s[i] == x && !about(s.take(i), x);
        assert(s[i] == x);
        assert forall|q: int| 0 <= q < i implies !((#[trigger] s[q]).interaction_id
            == x.interaction_id && s[q].source_id == x.source_id) by {
            assert(s.take(i)[q] == s[q]);
        }
    }
    assert forall|a: int, b: int| 0 <= a < b < out.len() implies if (
    #[trigger] out[a]).interaction_id != (#[trigger] out[b]).interaction_id {
        order::text_lt(out[a].interaction_id.text(), out[b].interaction_id.text())
    } else {
        order::text_lt(out[a].source_id, out[b].source_id)
    } by {
        assert(precedes(out[a], out[b]));
    }
}

proof fn lemma_tip(head: Seq<char>, chain: Seq<Seq<Seq<char>>>, tips: Seq<Seq<char>>, i: nat)
    requires
        i < tips.len() <= chain.len() + 1,
        tips[0] == head,
        forall|j: int|
            0 <= j < tips.len() - 1 ==> (#[trigger] chain[j]).len() > 0 && chain[j][0] == tips[j
                + 1],
    ensures
        squash::line_at(head, chain, i) == tips[i as int],
{
    if i > 0 {
        assert(chain[i - 1].len() > 0);
        assert(chain[i - 1][0] == tips[i - 1 + 1]);
    }
}

proof fn lemma_walk_down(
    old: Seq<char>,
    head: Seq<char>,
    chain: Seq<Seq<Seq<char>>>,
    tips: Seq<Seq<char>>,
    k: nat,
)
    requires
        k < tips.len() <= chain.len() + 1,
        tips.len() <= 129,
        tips[0] == head,
        tips.last() == old,
        forall|j: int|
            0 <= j < tips.len() - 1 ==> (#[trigger] chain[j]).len() > 0 && chain[j][0] == tips[j
                + 1],
        forall|j: int| 0 <= j < tips.len() - 1 ==> #[trigger] tips[j] != old,
    ensures
        squash::walk(old, head, chain, k) == ScanModel::Done(
            squash::line_findings(head, chain, (tips.len() - 1) as nat),
        ),
    decreases tips.len() - k,
{
    lemma_tip(head, chain, tips, k);
    if k + 1 < tips.len() {
        assert(tips[k as int] != old);
        if k > 0 {
            assert(chain[k - 1].len() > 0);
        }
        lemma_walk_down(old, head, chain, tips, k + 1);
    }
}

/// A scan that comes to the commit where the last one ended finds every commit since,
/// the oldest first, each with its parent where it has exactly one.
pub proof fn law_scan_finds_every_commit_since(
    old: Seq<char>,
    immediate_head: bool,
    head: Seq<char>,
    chain: Seq<Seq<Seq<char>>>,
    tips: Seq<Seq<char>>,
)
    requires
        0 < tips.len() <= chain.len() + 1,
        tips.len() <= 129,
        tips[0] == head,
        tips.last() == old,
        forall|j: int|
            0 <= j < tips.len() - 1 ==> (#[trigger] chain[j]).len() > 0 && chain[j][0] == tips[j
                + 1],
        forall|j: int| 0 <= j < tips.len() - 1 ==> #[trigger] tips[j] != old,
    ensures
        squash::scan_model(Some(old), immediate_head, head, chain) matches ScanModel::Done(found)
            && found.len() == tips.len() - 1 && forall|i: int|
            0 <= i < found.len() ==> {
                let j = tips.len() - 2 - i;
                &&& (#[trigger] found[i]).0 == tips[j]
                &&& found[i].2 <==> chain[j].len() == 1
                &&& found[i].2 ==> found[i].1 == tips[j + 1]
                &&& !found[i].2 ==> found[i].1.len() == 0
            },
{
    lemma_walk_down(old, head, chain, tips, 0);
    let found = squash::line_findings(head, chain, (tips.len() - 1) as nat);
    assert forall|i: int| 0 <= i < found.len() implies {
        let j = tips.len() - 2 - i;
        &&& (#[trigger] found[i]).0 == tips[j]
        &&& found[i].2 <==> chain[j].len() == 1
        &&& found[i].2 ==> found[i].1 == tips[j + 1]
        &&& !found[i].2 ==> found[i].1.len() == 0
    } by {
        let j = tips.len() - 2 - i;
        lemma_tip(head, chain, tips, j as nat);
        assert(chain[j][0] == tips[j + 1]);
    }
}

proof fn lemma_embedded(nodes: Seq<NodeModel>, k: nat)
    requires
        k <= nodes.len(),
    ensures
        batch::embedded_links(nodes, k) == nodes.take(k as int).map_values(
            |n: NodeModel| n.artifact_links,
        ).flatten(),
    decreases k,
{
    broadcast use Seq::lemma_flatten_push;

    let f = |n: NodeModel| n.artifact_links;
    let now = nodes.take(k as int);
    if k > 0 {
        lemma_embedded(nodes, (k - 1) as nat);
        let was = nodes.take(k - 1);
        assert(now.map_values(f) =~= was.map_values(f).push(f(nodes[k - 1])));
    } else {
        assert(now.map_values(f).flatten() =~= Seq::empty());
    }
}

/// An import writes every link inside every node and every link record, in their
/// order, and no other.
pub proof fn law_every_link_is_imported(nodes: Seq<NodeModel>, records: Seq<LinkRecordModel>)
    ensures
        ({
            let inside = nodes.map_values(|n: NodeModel| n.artifact_links).flatten();
            let out = batch::imported_links(nodes, records);
            &&& out.len() == inside.len() + records.len()
            &&& out.take(inside.len() as int) == inside
            &&& forall|i: int|
                0 <= i < records.len() ==> {
                    let l = out[inside.len() + i];
                    &&& l.git_commit_hash == (#[trigger] records[i]).git_commit_hash
                    &&& l.link_type == records[i].link_type
                    &&& l.linked_by == records[i].linked_by
                    &&& models::parsed_uuid(records[i].interaction_id) matches Some(v)
                        ==> l.interaction_id.value == v
                }
        }),
{
    lemma_embedded(nodes, nodes.len());
    assert(nodes.take(nodes.len() as int) =~= nodes);
    let inside = nodes.map_values(|n: NodeModel| n.artifact_links).flatten();
    let out = batch::imported_links(nodes, records);
    assert(out.take(inside.len() as int) =~= inside);
}

proof fn lemma_ranges_named(
    s: Seq<(RangeModel, Seq<RangeSourceModel>)>,
    id: Seq<char>,
    k: nat,
)
    requires
        k <= s.len(),
    ensures
        ({
            let found = squash::named_ranges(s, id, k);
            &&& forall|m: int|
                0 <= m < found.len() ==> (#[trigger] found[m]).0.range_id == id
            &&& found.len() == 0 <==> forall|i: int|
                0 <= i < k ==> (#[trigger] s[i]).0.range_id != id
            &&& found.len() == 1 ==> sole_at(s, id, k, found[0])
            &&& forall|i: int|
                0 <= i < k && (#[trigger] s[i]).0.range_id == id && (forall|j: int|
                    0 <= j < k && j != i ==> (#[trigger] s[j]).0.range_id != id) ==> found.len()
                    == 1 && found[0] == s[i]
        }),
    decreases k,
{
    if k > 0 {
        lemma_ranges_named(s, id, (k - 1) as nat);
        let before = squash::named_ranges(s, id, (k - 1) as nat);
        let found = squash::named_ranges(s, id, k);
        if s[k - 1].0.range_id == id {
            assert(found == before.push(s[k - 1]));
            assert(s[k - 1].0.range_id == id);
            if found.len() == 1 {
                assert(sole_at(s, id, k, s[k - 1]));
            }
        } else if found.len() == 1 {
            let i = choose|i: int|
                0 <= i < k - 1 && (#[trigger] s[i]) == before[0] && s[i].0.range_id == id && forall|
                    j: int,
                |
                    0 <= j < k - 1 && j != i ==> (#[trigger] s[j]).0.range_id != id;
            assert(s[i] == found[0]);
            assert(sole_at(s, id, k, found[0]));
        }
        assert forall|i: int|
            0 <= i < k && (#[trigger] s[i]).0.range_id == id && (forall|j: int|
                0 <= j < k && j != i ==> (#[trigger] s[j]).0.range_id != id) implies found.len()
            == 1 && found[0] == s[i] by {
            if i < k - 1 {
                assert(s[k - 1].0.range_id != id);
                assert forall|j: int| 0 <= j < k - 1 && j != i implies (
                #[trigger] s[j]).0.range_id != id by {}
            } else {
                assert forall|j: int| 0 <= j < k - 1 implies (#[trigger] s[j]).0.range_id != id by {}
                assert(before.len() == 0);
            }
        }
    }
}

/// The one range of the list with this identity.
pub open spec fn sole_at(
    s: Seq<(RangeModel, Seq<RangeSourceModel>)>,
    id: Seq<char>,
    k: nat,
    x: (RangeModel, Seq<RangeSourceModel>),
) -> bool {
    exists|i: int|
        0 <= i < k && #[trigger] s[i] == x && s[i].0.range_id == id && forall|j: int|
            0 <= j < k && j != i ==> (#[trigger] s[j]).0.range_id != id
}

/// A squash is planned exactly where the commit stands on the one parent it was found
/// on, has the range's changeset, and the store has that very range once, with sources.
pub proof fn law_squash_is_planned_where_all_agrees(
    parents: Seq<Seq<char>>,
    expected: Seq<char>,
    algorithm: Seq<char>,
    digest: Seq<char>,
    stored: Seq<(RangeModel, Seq<RangeSourceModel>)>,
    range: RangeModel,
)
    ensures
        squash::plan_refusal(parents, expected, algorithm, digest, stored, range) is None <==> {
            &&& parents.len() == 1 && parents[0] == expected
            &&& algorithm == range.changeset_algorithm
            &&& digest == range.changeset_digest
            &&& exists|sources: Seq<RangeSourceModel>|
                sources.len() > 0 && #[trigger] sole_at(
                    stored,
                    range.range_id,
                    stored.len(),
                    (range, sources),
                )
        },
{
    let found = squash::named_ranges(stored, range.range_id, stored.len());
    lemma_ranges_named(stored, range.range_id, stored.len());
    assert(parents == seq![expected] <==> parents.len() == 1 && parents[0] == expected) by {
        if parents.len() == 1 && parents[0] == expected {
            assert(parents =~= seq![expected]);
        }
    }
    if squash::plan_refusal(parents, expected, algorithm, digest, stored, range) is None {
        assert(found[0] == (range, found[0].1));
        assert(sole_at(stored, range.range_id, stored.len(), (range, found[0].1)));
    }
    if exists|sources: Seq<RangeSourceModel>|
        sources.len() > 0 && #[trigger] sole_at(
            stored,
            range.range_id,
            stored.len(),
            (range, sources),
        ) {
        let sources = choose|sources: Seq<RangeSourceModel>|
            sources.len() > 0 && #[trigger] sole_at(
                stored,
                range.range_id,
                stored.len(),
                (range, sources),
            );
        let i = choose|i: int|
            0 <= i < stored.len() && #[trigger] stored[i] == (range, sources)
                && stored[i].0.range_id == range.range_id && forall|j: int|
                0 <= j < stored.len() && j != i ==> (#[trigger] stored[j]).0.range_id
                    != range.range_id;
        assert(found.len() == 1 && found[0] == stored[i]);
    }
}

/// Events that pass as those of a squash cover its sources exactly: each is of the
/// commit and the range, one to an interaction, and cites precisely the sources that
/// the range has for it; no interaction of the range is left out.
pub proof fn law_passing_events_cover_the_sources(
    candidate: Seq<char>,
    range_id: Seq<char>,
    s: Seq<RangeSourceModel>,
    events: Seq<EventModel>,
)
    requires
        squash::partition_fault(candidate, range_id, s, events) is None,
    ensures
        s.len() > 0,
        forall|k: int|
            0 <= k < events.len() ==> {
                let e = #[trigger] events[k];
                &&& e.event_id == models::event_identity(e)
                &&& e.target_commit == candidate
                &&& e.range_id == Some(range_id)
                &&& e.relation == DerivationRelation::SquashExact
                &&& e.evidence.kind == EvidenceKind::LocallyObserved
                &&& e.origin == DerivationOrigin::LocalHook
                &&& e.old_oid is None && e.new_oid is None
            },
        forall|a: int, b: int|
            0 <= a < b < events.len() ==> (#[trigger] events[a]).interaction_id != (
            #[trigger] events[b]).interaction_id,
        forall|i: int| 0 <= i < s.len() ==> is_cited(events, #[trigger] s[i]),
        forall|k: int, x: Seq<char>|
            0 <= k < events.len() && #[trigger] events[k].sources.contains(x) ==> is_source_of(
                s,
                events[k].interaction_id,
                x,
            ),
{
    reveal(squash::sound_squash_event);
    assert forall|k: int| 0 <= k < events.len() implies {
        let e = #[trigger] events[k];
        &&& e.event_id == models::event_identity(e)
        &&& e.target_commit == candidate
        &&& e.range_id == Some(range_id)
        &&& e.relation == DerivationRelation::SquashExact
        &&& e.evidence.kind == EvidenceKind::LocallyObserved
        &&& e.origin == DerivationOrigin::LocalHook
        &&& e.old_oid is None && e.new_oid is None
    } by {
        assert(squash::sound_squash_event(events[k], candidate, range_id));
    }
    assert forall|i: int| 0 <= i < s.len() implies is_cited(events, #[trigger] s[i]) by {
        let id = s[i].interaction_id;
        assert(squash::covered(events, id));
        let k = choose|k: int| 0 <= k < events.len() && (#[trigger] events[k]).interaction_id == id;
        assert(events[k].sources == squash::squash_ids(s, id));
        lemma_sources_listed(s, id, s.len());
        order::lemma_sorted_set(squash::ids_of(s, id, s.len()));
        assert(squash::ids_of(s, id, s.len()).contains(s[i].source_id));
        assert(events[k].sources.contains(s[i].source_id));
    }
    assert forall|k: int, x: Seq<char>|
        0 <= k < events.len() && #[trigger] events[k].sources.contains(x) implies is_source_of(
        s,
        events[k].interaction_id,
        x,
    ) by {
        let id = events[k].interaction_id;
        assert(events[k].sources == squash::squash_ids(s, id));
        lemma_sources_listed(s, id, s.len());
        order::lemma_sorted_set(squash::ids_of(s, id, s.len()));
        assert(squash::ids_of(s, id, s.len()).contains(x));
        let i = choose|i: int|
            0 <= i < s.len() && (#[trigger] s[i]).interaction_id == id && s[i].source_id == x;
        assert(s[i].source_id == x);
    }
}

/// Some event of the source's interaction cites it.
pub open spec fn is_cited(events: Seq<EventModel>, x: RangeSourceModel) -> bool {
    exists|k: int|
        0 <= k < events.len() && (#[trigger] events[k]).interaction_id == x.interaction_id
            && events[k].sources.contains(x.source_id)
}

/// The records have this source for the interaction.
pub open spec fn is_source_of(
    s: Seq<RangeSourceModel>,
    id: InteractionId,
    source: Seq<char>,
) -> bool {
    exists|i: int|
        0 <= i < s.len() && (#[trigger] s[i]).interaction_id == id && s[i].source_id == source
}

} // verus!
