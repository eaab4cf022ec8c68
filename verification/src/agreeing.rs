//! What a user's agreements cover, and which graphs of events are accepted.

use crate::consent;
use crate::consent::{ConsentModel, PrivacyModel};
use crate::derivation;
use crate::keeping;
use crate::models;
use crate::models::{DerivationRelation, EventModel};
use crate::privacy;
use vstd::prelude::*;

verus! {

/// The user has agreed to the current notice for this destination.
pub open spec fn has_agreed(s: Seq<ConsentModel>, fp: Seq<char>) -> bool {
    exists|k: int|
        0 <= k < s.len() && (#[trigger] s[k]).fingerprint == fp && s[k].notice_version
            == privacy::PRIVACY_NOTICE_VERSION
}

proof fn lemma_agreement(s: Seq<ConsentModel>, fp: Seq<char>, k: int)
    requires
        0 <= k <= s.len(),
    ensures
        match consent::find_consent(s, fp, k) {
            Some(i) => k <= i < s.len() && s[i].fingerprint == fp && s[i].notice_version
                == privacy::PRIVACY_NOTICE_VERSION && forall|q: int|
                k <= q < i ==> !((#[trigger] s[q]).fingerprint == fp && s[q].notice_version
                    == privacy::PRIVACY_NOTICE_VERSION),
            None => forall|q: int|
                k <= q < s.len() ==> !((#[trigger] s[q]).fingerprint == fp && s[q].notice_version
                    == privacy::PRIVACY_NOTICE_VERSION),
        },
    decreases s.len() - k,
{
    if k < s.len() && !(s[k].fingerprint == fp && s[k].notice_version
        == privacy::PRIVACY_NOTICE_VERSION) {
        lemma_agreement(s, fp, k + 1);
    }
}

/// Sharing is allowed exactly where the user agreed to the current notice for that
/// destination, pushes go out by themselves only where sharing is allowed, and capture
/// is acknowledged exactly for the current notice.
pub proof fn law_status_is_what_was_agreed(state: PrivacyModel, fp: Seq<char>)
    ensures
        ({
            let status = consent::status_of(state, fp);
            &&& status.sharing_consented <==> has_agreed(state.sharing, fp)
            &&& status.auto_push ==> status.sharing_consented
            &&& status.capture_acknowledged <==> state.capture_acknowledged_version == Some(
                privacy::PRIVACY_NOTICE_VERSION,
            )
            &&& status.remote_fingerprint == fp
        }),
{
    lemma_agreement(state.sharing, fp, 0);
    if let Some(i) = consent::find_consent(state.sharing, fp, 0) {
        assert(state.sharing[i].fingerprint == fp);
    }
}

/// An agreement to share changes nothing for any other destination, and leaves the
/// rest of the state as it was; pushes do not go out by themselves on account of it.
pub proof fn law_agreement_is_for_one_destination(
    state: PrivacyModel,
    fp: Seq<char>,
    other: ConsentModel,
)
    ensures
        ({
            let out = consent::with_sharing(state, fp);
            &&& has_agreed(out.sharing, fp)
            &&& out.capture_acknowledged_version == state.capture_acknowledged_version
            &&& other.fingerprint != fp ==> (out.sharing.contains(other)
                <==> state.sharing.contains(other))
            &&& out.sharing.contains(other) && other.fingerprint == fp ==> !other.auto_push
        }),
{
    let keep = |c: ConsentModel| c.fingerprint != fp;
    let kept = state.sharing.filter(keep);
    let out = consent::with_sharing(state, fp).sharing;
    keeping::lemma_filter_is_exact(state.sharing, keep);
    assert(out[kept.len() as int].fingerprint == fp);
    if state.sharing.contains(other) && other.fingerprint != fp {
        let k = choose|k: int| 0 <= k < state.sharing.len() && state.sharing[k] == other;
        assert(keep(state.sharing[k]));
        assert(kept.contains(other));
        let m = choose|m: int| 0 <= m < kept.len() && kept[m] == other;
        assert(out[m] == other);
    }
    if out.contains(other) {
        let m = choose|m: int| 0 <= m < out.len() && out[m] == other;
        if m < kept.len() {
            assert(kept[m] == other);
            assert(keep(kept[m]));
            assert(state.sharing.contains(kept[m]));
        }
    }
}

/// Switching automatic pushes needs the user's agreement, sets what was asked for, and
/// changes nothing else.
pub proof fn law_auto_push_is_switched_for_one_destination(
    state: PrivacyModel,
    fp: Seq<char>,
    enabled: bool,
)
    ensures
        consent::with_auto_push(state, fp, enabled) is Ok <==> has_agreed(state.sharing, fp),
        consent::with_auto_push(state, fp, enabled) matches Ok(out) ==> {
            &&& out.capture_acknowledged_version == state.capture_acknowledged_version
            &&& out.sharing.len() == state.sharing.len()
            &&& consent::status_of(out, fp).auto_push == enabled
            &&& forall|i: int|
                0 <= i < out.sharing.len() ==> (#[trigger] out.sharing[i]).fingerprint
                    == state.sharing[i].fingerprint && out.sharing[i].notice_version
                    == state.sharing[i].notice_version
            &&& forall|i: int|
                0 <= i < out.sharing.len() && state.sharing[i].fingerprint != fp
                    ==> #[trigger] out.sharing[i] == state.sharing[i]
        },
{
    lemma_agreement(state.sharing, fp, 0);
    if let Some(k) = consent::find_consent(state.sharing, fp, 0) {
        assert(state.sharing[k].fingerprint == fp);
        let out = consent::with_auto_push(state, fp, enabled)->Ok_0;
        lemma_agreement(out.sharing, fp, 0);
        let m = consent::find_consent(out.sharing, fp, 0);
        assert(out.sharing[k].fingerprint == fp && out.sharing[k].notice_version
            == privacy::PRIVACY_NOTICE_VERSION);
        assert(m is Some);
        if m->0 < k {
            assert(out.sharing[m->0] == state.sharing[m->0]);
        }
    }
}

proof fn lemma_event_at(events: Seq<EventModel>, id: Seq<char>, k: int)
    requires
        0 <= k <= events.len(),
    ensures
        match derivation::find_event(events, id, k) {
            Some(p) => k <= p < events.len() && events[p].event_id == id,
            None => forall|p: int| k <= p < events.len() ==> (#[trigger] events[p]).event_id != id,
        },
    decreases events.len() - k,
{
    if k < events.len() && events[k].event_id != id {
        lemma_event_at(events, id, k + 1);
    }
}

/// A source of an event resolves: a link of the event's own interaction that is known,
/// or an event of that interaction.
pub open spec fn source_resolves(
    source: Seq<char>,
    e: EventModel,
    events: Seq<EventModel>,
    legacy: Set<Seq<char>>,
) -> bool {
    match derivation::legacy_source(source) {
        Some((interaction, commit)) => interaction == e.interaction_id.text() && legacy.contains(
            source,
        ),
        None => derivation::event_source(source) && exists|p: int|
            0 <= p < events.len() && (#[trigger] events[p]).event_id == source
                && events[p].interaction_id == e.interaction_id,
    }
}

proof fn lemma_sources_resolve(
    e: EventModel,
    events: Seq<EventModel>,
    legacy: Set<Seq<char>>,
    j: int,
)
    requires
        0 <= j <= e.sources.len(),
        models::all_distinct(derivation::event_ids(events)),
    ensures
        derivation::sources_fault(e, events, legacy, j) is None <==> forall|m: int|
            j <= m < e.sources.len() ==> source_resolves(
                #[trigger] e.sources[m],
                e,
                events,
                legacy,
            ),
    decreases e.sources.len() - j,
{
    if j < e.sources.len() {
        lemma_sources_resolve(e, events, legacy, j + 1);
        let source = e.sources[j];
        lemma_event_at(events, source, 0);
        assert(derivation::source_fault(source, e, events, legacy) is None <==> source_resolves(
            source,
            e,
            events,
            legacy,
        )) by {
            if let Some(p) = derivation::find_event(events, source, 0) {
                assert(events[p].event_id == source);
                if exists|q: int|
                    0 <= q < events.len() && (#[trigger] events[q]).event_id == source
                        && events[q].interaction_id == e.interaction_id {
                    let q = choose|q: int|
                        0 <= q < events.len() && (#[trigger] events[q]).event_id == source
                            && events[q].interaction_id == e.interaction_id;
                    let ids = derivation::event_ids(events);
                    assert(ids[p] == source && ids[q] == source);
                    assert(p == q);
                }
            }
        }
    }
}

/// An event that may stand in a closed graph.
pub open spec fn is_closed_event(
    e: EventModel,
    events: Seq<EventModel>,
    legacy: Set<Seq<char>>,
) -> bool {
    &&& e.relation == DerivationRelation::RewriteExact || e.relation
        == DerivationRelation::SquashExact ==> e.sources.len() > 0
    &&& forall|m: int|
        0 <= m < e.sources.len() ==> source_resolves(#[trigger] e.sources[m], e, events, legacy)
}

proof fn lemma_events_closed(events: Seq<EventModel>, legacy: Set<Seq<char>>, k: int)
    requires
        0 <= k <= events.len(),
        models::all_distinct(derivation::event_ids(events)),
    ensures
        derivation::events_fault(events, legacy, k) is None <==> forall|m: int|
            k <= m < events.len() ==> is_closed_event(#[trigger] events[m], events, legacy),
    decreases events.len() - k,
{
    if k < events.len() {
        lemma_events_closed(events, legacy, k + 1);
        lemma_sources_resolve(events[k], events, legacy, 0);
        assert(is_closed_event(events[k], events, legacy) <==> !(derivation::is_exact(
            events[k].relation,
        ) && events[k].sources.len() == 0) && derivation::sources_fault(
            events[k],
            events,
            legacy,
            0,
        ) is None);
    }
}

/// A graph of events is accepted exactly where no two share an identity, every exact
/// event has a source, every source resolves within its interaction, and no event
/// derives from itself.
pub proof fn law_closed_graphs_are_accepted(events: Seq<EventModel>, legacy: Set<Seq<char>>)
    ensures
        derivation::graph_fault(events, legacy) is None <==> models::all_distinct(
            derivation::event_ids(events),
        ) && (forall|m: int|
            0 <= m < events.len() ==> is_closed_event(#[trigger] events[m], events, legacy))
            && derivation::events_acyclic(events),
{
    if models::all_distinct(derivation::event_ids(events)) {
        lemma_events_closed(events, legacy, 0);
    }
}

} // verus!
