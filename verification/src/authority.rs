//! When the ledger writes, and which authority goes with what it writes.

use crate::derivation;
use crate::ledger;
use crate::ledger::{EventStateModel, SourceStateModel};
use crate::models;
use crate::models::{
    AuthorizationModel, DerivationOrigin, DerivationRelation, EventModel, EvidenceKind,
    ObservationModel, RangeSourceModel, SnapshotModel,
};
use crate::order;
use vstd::prelude::*;

verus! {

/// The source that a snapshot was taken of.
pub open spec fn taken_of(s: SnapshotModel) -> Seq<char> {
    match s {
        SnapshotModel::Legacy { interaction, commit, .. } => derivation::legacy_text(
            interaction,
            commit,
        ),
        SnapshotModel::Event { event_id, .. } => event_id,
    }
}

/// The authority that a snapshot holds.
pub open spec fn rows_of(s: SnapshotModel) -> Seq<AuthorizationModel> {
    match s {
        SnapshotModel::Legacy { authorization_rows, .. } => authorization_rows,
        SnapshotModel::Event { authorization_rows, .. } => authorization_rows,
    }
}

proof fn lemma_inherited(e: EventModel, snapshots: Seq<SnapshotModel>, k: nat)
    requires
        k <= snapshots.len(),
    ensures
        ledger::inherited(e, snapshots, k) == snapshots.take(k as int).filter(
            |s: SnapshotModel| e.sources.contains(taken_of(s)),
        ).map_values(|s: SnapshotModel| rows_of(s)).flatten(),
    decreases k,
{
    broadcast use Seq::lemma_flatten_push;

    reveal(Seq::filter);
    let cited = |s: SnapshotModel| e.sources.contains(taken_of(s));
    let rows = |s: SnapshotModel| rows_of(s);
    let now = snapshots.take(k as int);
    if k > 0 {
        lemma_inherited(e, snapshots, (k - 1) as nat);
        let was = snapshots.take(k - 1);
        let s = snapshots[k - 1];
        assert(now.drop_last() =~= was);
        assert(now.last() == s);
        assert(was.filter(cited).push(s).map_values(rows) =~= was.filter(cited).map_values(
            rows,
        ).push(rows_of(s)));
    } else {
        assert(now.filter(cited).map_values(rows).flatten() =~= Seq::empty());
    }
}

/// An event of a rewrite gets the authority of exactly those snapshots whose sources
/// it cites, and is inserted exactly where the store does not have it.
pub proof fn law_rewrite_inherits_from_its_sources(
    events: Seq<EventModel>,
    event_states: Seq<EventStateModel>,
    snapshots: Seq<SnapshotModel>,
)
    ensures
        ({
            let writes = ledger::rewrite_writes(events, event_states, snapshots);
            &&& writes.len() == events.len()
            &&& forall|k: int|
                0 <= k < events.len() ==> (#[trigger] writes[k]).insert == (
                event_states[k].stored is None) && writes[k].authorizations == snapshots.filter(
                    |s: SnapshotModel| events[k].sources.contains(taken_of(s)),
                ).map_values(|s: SnapshotModel| rows_of(s)).flatten()
        }),
{
    let writes = ledger::rewrite_writes(events, event_states, snapshots);
    assert(snapshots.take(snapshots.len() as int) =~= snapshots);
    assert forall|k: int| 0 <= k < events.len() implies (#[trigger] writes[k]).authorizations
        == snapshots.filter(
        |s: SnapshotModel| events[k].sources.contains(taken_of(s)),
    ).map_values(|s: SnapshotModel| rows_of(s)).flatten() by {
        lemma_inherited(events[k], snapshots, snapshots.len());
        let e = events[k];
        assert((|s: SnapshotModel| e.sources.contains(taken_of(s))) =~= (|s: SnapshotModel|
            events[k].sources.contains(taken_of(s))));
    }
}

proof fn lemma_cited(e: EventModel, sources: Seq<RangeSourceModel>, k: nat)
    requires
        k <= sources.len(),
    ensures
        ledger::cited_sources(e, sources, k) == sources.take(k as int).filter(
            |x: RangeSourceModel|
                x.interaction_id == e.interaction_id && e.sources.contains(x.source_id),
        ),
    decreases k,
{
    reveal(Seq::filter);
    let cited = |x: RangeSourceModel|
        x.interaction_id == e.interaction_id && e.sources.contains(x.source_id);
    let now = sources.take(k as int);
    if k > 0 {
        lemma_cited(e, sources, (k - 1) as nat);
        assert(now.drop_last() =~= sources.take(k - 1));
        assert(now.last() == sources[k - 1]);
    } else {
        assert(now.filter(cited) =~= Seq::empty());
    }
}

proof fn lemma_rows_joined(s: Seq<RangeSourceModel>)
    ensures
        ledger::all_rows(s) == s.map_values(|x: RangeSourceModel| rows_of(x.snapshot)).flatten(),
    decreases s.len(),
{
    broadcast use Seq::lemma_flatten_push;

    let rows = |x: RangeSourceModel| rows_of(x.snapshot);
    if s.len() > 0 {
        lemma_rows_joined(s.drop_last());
        assert(s.map_values(rows) =~= s.drop_last().map_values(rows).push(rows_of(s.last().snapshot)));
    } else {
        assert(s.map_values(rows).flatten() =~= Seq::empty());
    }
}

/// An event of a squash gets the authority of exactly those sources of its interaction
/// that it cites, and is inserted exactly where the store does not have it.
pub proof fn law_squash_inherits_from_its_sources(
    events: Seq<EventModel>,
    states: Seq<EventStateModel>,
    sources: Seq<RangeSourceModel>,
    k: int,
)
    requires
        0 <= k < events.len(),
    ensures
        ({
            let e = events[k];
            let w = ledger::squash_writes(events, states, sources)[k];
            &&& ledger::squash_writes(events, states, sources).len() == events.len()
            &&& w.insert == (states[k].stored is None)
            &&& w.authorizations == sources.filter(
                |x: RangeSourceModel|
                    x.interaction_id == e.interaction_id && e.sources.contains(x.source_id),
            ).map_values(|x: RangeSourceModel| rows_of(x.snapshot)).flatten()
        }),
{
    assert(sources.take(sources.len() as int) =~= sources);
    lemma_cited(events[k], sources, sources.len());
    lemma_rows_joined(ledger::cited_sources(events[k], sources, sources.len()));
}

/// A snapshot bears a source out: it was taken of it, and where that is an event the
/// stored payload is that event's.
pub open spec fn bears_out(s: SnapshotModel, state: SourceStateModel, source: Seq<char>) -> bool {
    &&& taken_of(s) == source
    &&& s is Event ==> state.decoded is Some && state.decoded->0.event_id == source
}

/// A source belongs to the interaction of an event: a link by its own name and the
/// snapshot's, another event by the interaction that the store has for it.
pub open spec fn belongs(
    e: EventModel,
    source: Seq<char>,
    owner: Option<Seq<char>>,
    s: SnapshotModel,
    state: SourceStateModel,
) -> bool {
    match derivation::legacy_source(source) {
        Some((interaction, commit)) => interaction == e.interaction_id.text() && match s {
            SnapshotModel::Legacy { interaction: own, .. } => own == interaction,
            SnapshotModel::Event { .. } => state.decoded is Some
                && state.decoded->0.interaction_id.text() == interaction,
        },
        None => derivation::event_source(source) && s is Event && taken_of(s) == source && owner
            == Some(e.interaction_id.text()),
    }
}

proof fn lemma_source_found(
    snapshots: Seq<SnapshotModel>,
    states: Seq<SourceStateModel>,
    source: Seq<char>,
    k: int,
)
    requires
        0 <= k <= snapshots.len(),
    ensures
        match ledger::find_source(snapshots, states, source, k) {
            Some(i) => k <= i < snapshots.len() && bears_out(snapshots[i], states[i], source)
                && forall|q: int| k <= q < i ==> !bears_out(#[trigger] snapshots[q], states[q], source),
            None => forall|q: int|
                k <= q < snapshots.len() ==> !bears_out(#[trigger] snapshots[q], states[q], source),
        },
    decreases snapshots.len() - k,
{
    if k < snapshots.len() {
        assert(bears_out(snapshots[k], states[k], source) <==> ledger::verified_source(
            snapshots[k],
            states[k],
        ) == Some(source));
        if !bears_out(snapshots[k], states[k], source) {
            lemma_source_found(snapshots, states, source, k + 1);
        }
    }
}

/// A source of an event has a snapshot that bears it out, and the first of them is of
/// the event's interaction.
pub open spec fn backed(
    e: EventModel,
    state: EventStateModel,
    snapshots: Seq<SnapshotModel>,
    states: Seq<SourceStateModel>,
    j: int,
) -> bool {
    exists|i: int|
        0 <= i < snapshots.len() && bears_out(#[trigger] snapshots[i], states[i], e.sources[j])
            && belongs(e, e.sources[j], state.owners[j], snapshots[i], states[i]) && forall|q: int|
            0 <= q < i ==> !bears_out(#[trigger] snapshots[q], states[q], e.sources[j])
}

proof fn lemma_backed(
    e: EventModel,
    state: EventStateModel,
    snapshots: Seq<SnapshotModel>,
    states: Seq<SourceStateModel>,
    j: int,
)
    requires
        0 <= j <= e.sources.len(),
    ensures
        ledger::cited_fault(e, state, snapshots, states, j) is None <==> forall|m: int|
            j <= m < e.sources.len() ==> #[trigger] backed(e, state, snapshots, states, m),
    decreases e.sources.len() - j,
{
    if j < e.sources.len() {
        lemma_backed(e, state, snapshots, states, j + 1);
        lemma_source_found(snapshots, states, e.sources[j], 0);
        let good = match ledger::find_source(snapshots, states, e.sources[j], 0) {
            None => false,
            Some(i) => belongs(e, e.sources[j], state.owners[j], snapshots[i], states[i]),
        };
        assert(good <==> backed(e, state, snapshots, states, j)) by {
            if let Some(i) = ledger::find_source(snapshots, states, e.sources[j], 0) {
                assert(bears_out(snapshots[i], states[i], e.sources[j]));
                if backed(e, state, snapshots, states, j) {
                    let m = choose|m: int|
                        0 <= m < snapshots.len() && bears_out(
                            #[trigger] snapshots[m],
                            states[m],
                            e.sources[j],
                        ) && belongs(
                            e,
                            e.sources[j],
                            state.owners[j],
                            snapshots[m],
                            states[m],
                        ) && forall|q: int|
                            0 <= q < m ==> !bears_out(
                                #[trigger] snapshots[q],
                                states[q],
                                e.sources[j],
                            );
                    if m < i {
                        assert(!bears_out(snapshots[m], states[m], e.sources[j]));
                    }
                    if i < m {
                        assert(!bears_out(snapshots[i], states[i], e.sources[j]));
                    }
                }
            }
        }
        if let Some(i) = ledger::find_source(snapshots, states, e.sources[j], 0) {
            assert(belongs(e, e.sources[j], state.owners[j], snapshots[i], states[i])
                <==> ledger::source_owned(
                e,
                e.sources[j],
                state.owners[j],
                snapshots[i],
                states[i],
            ));
        }
        if forall|m: int|
            j <= m < e.sources.len() ==> #[trigger] backed(e, state, snapshots, states, m) {
            assert(backed(e, state, snapshots, states, j));
        }
    }
}

/// An event that a rewrite may write.
pub open spec fn writable(
    e: EventModel,
    state: EventStateModel,
    snapshots: Seq<SnapshotModel>,
    states: Seq<SourceStateModel>,
) -> bool {
    &&& e.event_id == models::event_identity(e)
    &&& order::strictly_sorted(e.sources)
    &&& e.sources.len() > 0
    &&& e.relation == DerivationRelation::RewriteExact
    &&& e.evidence.kind == EvidenceKind::LocallyObserved
    &&& e.origin == DerivationOrigin::LocalHook
    &&& state.alive
    &&& state.stored is None || state.stored == Some(state.payload)
    &&& forall|j: int|
        0 <= j < e.sources.len() ==> #[trigger] backed(e, state, snapshots, states, j)
}

proof fn lemma_writable(
    events: Seq<EventModel>,
    event_states: Seq<EventStateModel>,
    snapshots: Seq<SnapshotModel>,
    states: Seq<SourceStateModel>,
    k: int,
)
    requires
        0 <= k <= events.len(),
    ensures
        ledger::events_fault_from(events, event_states, snapshots, states, k) is None <==> forall|
            m: int,
        |
            k <= m < events.len() ==> writable(
                #[trigger] events[m],
                event_states[m],
                snapshots,
                states,
            ),
    decreases events.len() - k,
{
    if k < events.len() {
        lemma_writable(events, event_states, snapshots, states, k + 1);
        lemma_backed(events[k], event_states[k], snapshots, states, 0);
        assert(writable(events[k], event_states[k], snapshots, states)
            <==> ledger::rewrite_event_fault(
            events[k],
            event_states[k],
            snapshots,
            states,
        ) is None);
    }
}

/// A rewrite is written exactly where every snapshot is still what the store gives and
/// every event may be written.
pub proof fn law_rewrite_is_written_where_nothing_changed(
    events: Seq<EventModel>,
    event_states: Seq<EventStateModel>,
    snapshots: Seq<SnapshotModel>,
    states: Seq<SourceStateModel>,
)
    ensures
        ledger::rewrite_fault(events, event_states, snapshots, states) is None <==> (forall|i: int|
            0 <= i < snapshots.len() ==> states[i].current.contains(#[trigger] snapshots[i])) && (
        forall|k: int|
            0 <= k < events.len() ==> writable(
                #[trigger] events[k],
                event_states[k],
                snapshots,
                states,
            )),
{
    lemma_writable(events, event_states, snapshots, states, 0);
    assert((exists|i: int|
        0 <= i < snapshots.len() && !ledger::still_holds(#[trigger] snapshots[i], states[i])) <==> !(
    forall|i: int|
        0 <= i < snapshots.len() ==> states[i].current.contains(#[trigger] snapshots[i]))) by {
        if exists|i: int|
            0 <= i < snapshots.len() && !ledger::still_holds(#[trigger] snapshots[i], states[i]) {
            let i = choose|i: int|
                0 <= i < snapshots.len() && !ledger::still_holds(#[trigger] snapshots[i], states[i]);
            assert(!states[i].current.contains(snapshots[i]));
        }
        if !(forall|i: int|
            0 <= i < snapshots.len() ==> states[i].current.contains(#[trigger] snapshots[i])) {
            let i = choose|i: int|
                0 <= i < snapshots.len() && !states[i].current.contains(#[trigger] snapshots[i]);
            assert(!ledger::still_holds(snapshots[i], states[i]));
        }
    }
}

/// A source of a squash still stands: it belongs to its interaction, its snapshot
/// bears it out, and the store still gives that snapshot.
pub open spec fn source_stands(x: RangeSourceModel, state: SourceStateModel) -> bool {
    &&& bears_out(x.snapshot, state, x.source_id)
    &&& match x.snapshot {
        SnapshotModel::Legacy { interaction, .. } => interaction == x.interaction_id.text(),
        SnapshotModel::Event { .. } => state.decoded->0.interaction_id == x.interaction_id
            || state.decoded->0.interaction_id.text() == x.interaction_id.text(),
    }
    &&& state.current.contains(x.snapshot)
}

/// The sources of a squash are accepted exactly where each of them still stands.
pub proof fn law_squash_needs_every_source(
    sources: Seq<RangeSourceModel>,
    states: Seq<SourceStateModel>,
    k: int,
)
    requires
        0 <= k <= sources.len(),
    ensures
        ledger::squash_source_fault(sources, states, k) is None <==> forall|m: int|
            k <= m < sources.len() ==> source_stands(#[trigger] sources[m], states[m]),
    decreases sources.len() - k,
{
    if k < sources.len() {
        law_squash_needs_every_source(sources, states, k + 1);
        assert(source_stands(sources[k], states[k]) <==> ({
            let s = sources[k];
            &&& ledger::snapshot_owner(s.snapshot, states[k]) == Some(s.interaction_id.text())
            &&& ledger::verified_source(s.snapshot, states[k]) == Some(s.source_id)
            &&& ledger::still_holds(s.snapshot, states[k])
        }));
    }
}

/// An event that a squash may write: its interaction lives, the store has nothing else
/// under its identity, and it cites the sources that the range has for it.
pub open spec fn squashable(
    e: EventModel,
    state: EventStateModel,
    sources: Seq<RangeSourceModel>,
) -> bool {
    &&& state.alive
    &&& state.stored is None || state.stored == Some(state.payload)
    &&& cites_exactly(e, sources)
}

/// The events of a squash are accepted exactly where each of them may be written.
pub proof fn law_squash_needs_every_event(
    events: Seq<EventModel>,
    states: Seq<EventStateModel>,
    sources: Seq<RangeSourceModel>,
    k: int,
)
    requires
        0 <= k <= events.len(),
    ensures
        ledger::squash_events_fault(events, states, sources, k) is None <==> forall|m: int|
            k <= m < events.len() ==> squashable(#[trigger] events[m], states[m], sources),
    decreases events.len() - k,
{
    if k < events.len() {
        law_squash_needs_every_event(events, states, sources, k + 1);
        lemma_cited(events[k], sources, sources.len());
        assert(sources.take(sources.len() as int) =~= sources);
        let named = ledger::source_names(
            ledger::cited_sources(events[k], sources, sources.len()),
        );
        assert(cites_exactly(events[k], sources) <==> named == events[k].sources);
        assert(ledger::squash_events_fault(events, states, sources, k) is None <==> squashable(
            events[k],
            states[k],
            sources,
        ) && ledger::squash_events_fault(events, states, sources, k + 1) is None);
    }
}

/// An event cites exactly those sources of its interaction that it names.
pub open spec fn cites_exactly(e: EventModel, sources: Seq<RangeSourceModel>) -> bool {
    e.sources == sources.filter(
        |x: RangeSourceModel|
            x.interaction_id == e.interaction_id && e.sources.contains(x.source_id),
    ).map_values(|x: RangeSourceModel| x.source_id)
}

spec fn row_before(a: AuthorizationModel, b: AuthorizationModel) -> bool {
    if a.remote_fingerprint != b.remote_fingerprint {
        order::text_lt(a.remote_fingerprint, b.remote_fingerprint)
    } else {
        order::text_lt(a.source_event_id, b.source_event_id)
    }
}

proof fn lemma_row_before(a: AuthorizationModel, b: AuthorizationModel, c: AuthorizationModel)
    ensures
        row_before(a, b) && row_before(b, c) ==> row_before(a, c),
        row_before(a, b) ==> a != b,
        !row_before(a, b) && a != b ==> row_before(b, a),
{
    order::lemma_text_order(a.remote_fingerprint, b.remote_fingerprint);
    order::lemma_text_order(b.remote_fingerprint, c.remote_fingerprint);
    order::lemma_text_order(a.remote_fingerprint, c.remote_fingerprint);
    order::lemma_text_order(a.source_event_id, b.source_event_id);
    if order::text_lt(a.remote_fingerprint, b.remote_fingerprint) && order::text_lt(
        b.remote_fingerprint,
        c.remote_fingerprint,
    ) {
        order::lemma_text_lt_transitive(
            a.remote_fingerprint,
            b.remote_fingerprint,
            c.remote_fingerprint,
        );
    }
    if order::text_lt(a.source_event_id, b.source_event_id) && order::text_lt(
        b.source_event_id,
        c.source_event_id,
    ) {
        order::lemma_text_lt_transitive(a.source_event_id, b.source_event_id, c.source_event_id);
    }
}

proof fn lemma_row_inserted(s: Seq<AuthorizationModel>, x: AuthorizationModel)
    requires
        forall|a: int, b: int| 0 <= a < b < s.len() ==> row_before(#[trigger] s[a], #[trigger] s[b]),
    ensures
        ({
            let out = ledger::authorization_insert(s, x);
            &&& forall|a: int, b: int|
                0 <= a < b < out.len() ==> row_before(#[trigger] out[a], #[trigger] out[b])
            &&& forall|y: AuthorizationModel| #[trigger]
                out.contains(y) <==> s.contains(y) || y == x
        }),
    decreases s.len(),
{
    let out = ledger::authorization_insert(s, x);
    if s.len() == 0 {
        assert(out[0] == x);
    } else {
        let p = s.drop_last();
        let z = s.last();
        assert(z == s[s.len() - 1]);
        assert forall|a: int, b: int| 0 <= a < b < p.len() implies row_before(
            #[trigger] p[a],
            #[trigger] p[b],
        ) by {
            assert(row_before(s[a], s[b]));
        }
        assert forall|a: int| 0 <= a < p.len() implies row_before(#[trigger] p[a], z) by {
            assert(row_before(s[a], s[s.len() - 1]));
        }
        lemma_row_before(z, x, z);
        if z == x {
            assert(s.contains(x));
        } else if row_before(z, x) {
            assert(out == s.push(x));
            assert forall|a: int| 0 <= a < s.len() implies row_before(#[trigger] s[a], x) by {
                if a < p.len() {
                    assert(row_before(p[a], z));
                    lemma_row_before(s[a], z, x);
                }
            }
            assert forall|y: AuthorizationModel| #[trigger] out.contains(y) <==> s.contains(y) || y
                == x by {
                if s.contains(y) {
                    let k = choose|k: int| 0 <= k < s.len() && s[k] == y;
                    assert(out[k] == y);
                }
                assert(out[s.len() as int] == x);
                if out.contains(y) {
                    let k = choose|k: int| 0 <= k < out.len() && out[k] == y;
                    if k < s.len() {
                        assert(s[k] == y);
                    }
                }
            }
        } else {
            lemma_row_inserted(p, x);
            let q = ledger::authorization_insert(p, x);
            assert(out == q.push(z));
            assert forall|a: int| 0 <= a < q.len() implies row_before(#[trigger] q[a], z) by {
                assert(q.contains(q[a]));
                if p.contains(q[a]) {
                    let k = choose|k: int| 0 <= k < p.len() && p[k] == q[a];
                    assert(row_before(p[k], z));
                }
            }
            assert forall|y: AuthorizationModel| #[trigger] out.contains(y) <==> s.contains(y) || y
                == x by {
                if out.contains(y) {
                    let k = choose|k: int| 0 <= k < out.len() && out[k] == y;
                    if k < q.len() {
                        assert(q[k] == y);
                        assert(q.contains(y));
                        if p.contains(y) {
                            let m = choose|m: int| 0 <= m < p.len() && p[m] == y;
                            assert(s[m] == y);
                        }
                    } else {
                        assert(s[s.len() - 1] == y);
                    }
                }
                if s.contains(y) || y == x {
                    if y == z {
                        assert(out[q.len() as int] == y);
                    } else {
                        if s.contains(y) {
                            let m = choose|m: int| 0 <= m < s.len() && s[m] == y;
                            assert(p[m] == y);
                        }
                        assert(q.contains(y));
                        let k = choose|k: int| 0 <= k < q.len() && q[k] == y;
                        assert(out[k] == y);
                    }
                }
            }
        }
    }
}

/// The authority of a snapshot is what the store has, each row once and in the order
/// of remote and source.
pub proof fn law_authority_is_ordered(s: Seq<AuthorizationModel>)
    ensures
        ({
            let out = ledger::ordered_authorizations(s);
            &&& forall|x: AuthorizationModel| #[trigger] out.contains(x) <==> s.contains(x)
            &&& forall|a: int, b: int|
                0 <= a < b < out.len() ==> if (#[trigger] out[a]).remote_fingerprint != (
                #[trigger] out[b]).remote_fingerprint {
                    order::text_lt(out[a].remote_fingerprint, out[b].remote_fingerprint)
                } else {
                    order::text_lt(out[a].source_event_id, out[b].source_event_id)
                }
        }),
    decreases s.len(),
{
    let out = ledger::ordered_authorizations(s);
    if s.len() > 0 {
        let p = s.drop_last();
        law_authority_is_ordered(p);
        let before = ledger::ordered_authorizations(p);
        assert forall|a: int, b: int| 0 <= a < b < before.len() implies row_before(
            #[trigger] before[a],
            #[trigger] before[b],
        ) by {}
        lemma_row_inserted(before, s.last());
        assert forall|x: AuthorizationModel| #[trigger] out.contains(x) <==> s.contains(x) by {
            if s.contains(x) {
                let k = choose|k: int| 0 <= k < s.len() && s[k] == x;
                if k < p.len() {
                    assert(p[k] == x);
                }
            }
            if p.contains(x) {
                let k = choose|k: int| 0 <= k < p.len() && p[k] == x;
                assert(s[k] == x);
            }
            assert(s[s.len() - 1] == s.last());
        }
        assert forall|a: int, b: int| 0 <= a < b < out.len() implies if (
        #[trigger] out[a]).remote_fingerprint != (#[trigger] out[b]).remote_fingerprint {
            order::text_lt(out[a].remote_fingerprint, out[b].remote_fingerprint)
        } else {
            order::text_lt(out[a].source_event_id, out[b].source_event_id)
        } by {
            assert(row_before(out[a], out[b]));
        }
    } else {
        assert forall|x: AuthorizationModel| #[trigger] out.contains(x) <==> s.contains(x) by {}
    }
}

proof fn lemma_observation_inserted(s: Seq<ObservationModel>, x: ObservationModel)
    ensures
        forall|y: ObservationModel| #[trigger]
            ledger::observation_insert(s, x).contains(y) <==> s.contains(y) || y == x,
    decreases s.len(),
{
    let out = ledger::observation_insert(s, x);
    if s.len() == 0 {
        assert(out[0] == x);
    } else {
        let p = s.drop_last();
        let z = s.last();
        assert(z == s[s.len() - 1]);
        lemma_observation_inserted(p, x);
        let q = ledger::observation_insert(p, x);
        assert forall|y: ObservationModel| #[trigger] out.contains(y) <==> s.contains(y) || y == x by {
            if z == x {
            } else if ledger::observation_lt(z, x) {
                if s.contains(y) {
                    let k = choose|k: int| 0 <= k < s.len() && s[k] == y;
                    assert(out[k] == y);
                }
                assert(out[s.len() as int] == x);
                if out.contains(y) {
                    let k = choose|k: int| 0 <= k < out.len() && out[k] == y;
                    if k < s.len() {
                        assert(s[k] == y);
                    }
                }
            } else {
                if out.contains(y) {
                    let k = choose|k: int| 0 <= k < out.len() && out[k] == y;
                    if k < q.len() {
                        assert(q[k] == y);
                        assert(q.contains(y));
                        if p.contains(y) {
                            let m = choose|m: int| 0 <= m < p.len() && p[m] == y;
                            assert(s[m] == y);
                        }
                    } else {
                        assert(s[s.len() - 1] == y);
                    }
                }
                if s.contains(y) || y == x {
                    if y == z {
                        assert(out[q.len() as int] == y);
                    } else {
                        if s.contains(y) {
                            let m = choose|m: int| 0 <= m < s.len() && s[m] == y;
                            assert(p[m] == y);
                        }
                        assert(q.contains(y));
                        let k = choose|k: int| 0 <= k < q.len() && q[k] == y;
                        assert(out[k] == y);
                    }
                }
            }
        }
    }
}

/// The observations of a snapshot are those that the store has.
pub proof fn law_observations_are_kept(s: Seq<ObservationModel>)
    ensures
        forall|x: ObservationModel| #[trigger]
            ledger::ordered_observations(s).contains(x) <==> s.contains(x),
    decreases s.len(),
{
    let out = ledger::ordered_observations(s);
    if s.len() > 0 {
        let p = s.drop_last();
        law_observations_are_kept(p);
        lemma_observation_inserted(ledger::ordered_observations(p), s.last());
        assert forall|x: ObservationModel| #[trigger] out.contains(x) <==> s.contains(x) by {
            if s.contains(x) {
                let k = choose|k: int| 0 <= k < s.len() && s[k] == x;
                if k < p.len() {
                    assert(p[k] == x);
                }
            }
            if p.contains(x) {
                let k = choose|k: int| 0 <= k < p.len() && p[k] == x;
                assert(s[k] == x);
            }
            assert(s[s.len() - 1] == s.last());
        }
    }
}

/// The queue counts the targets that it does not hold yet.
pub proof fn law_new_targets_are_counted(known: Seq<bool>, k: nat)
    requires
        k <= known.len(),
    ensures
        ledger::new_targets(known, k) == known.take(k as int).filter(|b: bool| !b).len(),
    decreases k,
{
    reveal(Seq::filter);
    let fresh = |b: bool| !b;
    let now = known.take(k as int);
    if k > 0 {
        law_new_targets_are_counted(known, (k - 1) as nat);
        assert(now.drop_last() =~= known.take(k - 1));
        assert(now.last() == known[k - 1]);
    }
}

} // verus!
