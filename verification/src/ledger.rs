//! What the store decides inside its write transactions: whether the sources of
//! derived events still are what a plan was built on, which events may be
//! written and which authority they inherit, and which squash targets queue up.

use crate::derivation;
use crate::derivation::{is_event_source, is_safe_commit_sha, parse_legacy_source};
use crate::digest;
use crate::digest::hex_digest;
use crate::models;
use crate::models::{
    AuthorizationModel, DerivationEvent, DerivationOrigin, DerivationRelation, EventModel,
    EvidenceKind, InteractionId, ObservationModel, RangeEvidence, RangeModel, RangeSourceModel,
    RangeSourceSnapshot, SnapshotModel, SourceAuthorizationRow, SourceObservationRow,
    SourceSnapshot, copy_opt_text, opt_text_equal, texts_equal,
};
use crate::order;
use crate::order::{holds, text_less};
use crate::rewrite;
use crate::rewrite::{RewriteFactsModel, RewriteSourceModel, snapshot_source_id};
use crate::squash::{Discovered, SquashTarget, ValidatedSquashPlan};
use crate::store;
use crate::store::{DbError, StoredLink, invalid_link, link_conflict};
use crate::text;
use crate::text::{bytes_len, glue3, text_equal};
use vstd::prelude::*;
use vstd::string::*;

verus! {

pub const MAX_PENDING_SQUASH_TARGETS: i64 = 4096;

pub const MAX_RESOLVED_SQUASH_TARGETS: i64 = 512;

/// The longest key of a range observation, in bytes.
pub const MAX_SOURCE_KEY_BYTES: usize = 1024;

/// Why a transaction is abandoned.
#[verifier::ext_equal]
pub enum LedgerFault {
    /// The plan itself is invalid.
    Invalid(Seq<char>),
    /// The store is not what the plan was built on.
    Conflict(Seq<char>),
}

/// The error reports the fault.
pub open spec fn reports(e: DbError, f: LedgerFault) -> bool {
    match f {
        LedgerFault::Invalid(said) => store::bad_link(e, said),
        LedgerFault::Conflict(said) => store::conflict(e, said),
    }
}

/// What the store says of a source inside the transaction.
pub struct SourceState {
    /// The event that the snapshot's payload decodes to.
    pub decoded: Option<DerivationEvent>,
    /// The snapshots that the source gives now.
    pub current: Vec<SourceSnapshot>,
}

/// The contents of [`SourceState`].
#[verifier::ext_equal]
pub struct SourceStateModel {
    pub decoded: Option<EventModel>,
    pub current: Seq<SnapshotModel>,
}

impl View for SourceState {
    type V = SourceStateModel;

    open spec fn view(&self) -> SourceStateModel {
        SourceStateModel {
            decoded: match self.decoded {
                Some(e) => Some(e@),
                None => None,
            },
            current: rewrite::snapshot_models(self.current@),
        }
    }
}

/// The contents of states.
pub open spec fn state_models(s: Seq<SourceState>) -> Seq<SourceStateModel> {
    s.map_values(|x: SourceState| x@)
}

/// The interaction that a snapshot belongs to.
pub open spec fn snapshot_owner(s: SnapshotModel, state: SourceStateModel) -> Option<Seq<char>> {
    match s {
        SnapshotModel::Legacy { interaction, .. } => Some(interaction),
        SnapshotModel::Event { .. } => match state.decoded {
            Some(e) => Some(e.interaction_id.text()),
            None => None,
        },
    }
}

/// The source that a snapshot stands for, where its payload bears it out.
pub open spec fn verified_source(s: SnapshotModel, state: SourceStateModel) -> Option<Seq<char>> {
    match s {
        SnapshotModel::Legacy { interaction, commit, .. } => Some(
            derivation::legacy_text(interaction, commit),
        ),
        SnapshotModel::Event { event_id, .. } => match state.decoded {
            Some(e) => if e.event_id == event_id {
                Some(event_id)
            } else {
                None
            },
            None => None,
        },
    }
}

/// The source still gives this snapshot.
pub open spec fn still_holds(s: SnapshotModel, state: SourceStateModel) -> bool {
    state.current.contains(s)
}

fn owner_is(snapshot: &SourceSnapshot, state: &SourceState, id: &str) -> (r: bool)
    ensures
        r == (snapshot_owner(snapshot@, state@) == Some(id@)),
{
    match snapshot {
        SourceSnapshot::Legacy { interaction, .. } => text_equal(interaction.as_str(), id),
        SourceSnapshot::Event { .. } => match &state.decoded {
            Some(e) => text_equal(e.interaction_id.as_str().as_str(), id),
            None => false,
        },
    }
}

fn source_is(snapshot: &SourceSnapshot, state: &SourceState, id: &str) -> (r: bool)
    ensures
        r == (verified_source(snapshot@, state@) == Some(id@)),
{
    match snapshot {
        SourceSnapshot::Legacy { .. } => text_equal(snapshot_source_id(snapshot).as_str(), id),
        SourceSnapshot::Event { event_id, .. } => match &state.decoded {
            Some(e) => text_equal(e.event_id.as_str(), event_id.as_str()) && text_equal(
                event_id.as_str(),
                id,
            ),
            None => false,
        },
    }
}

/// Whether the source still gives this snapshot.
pub fn snapshot_matches(snapshot: &SourceSnapshot, state: &SourceState) -> (r: bool)
    ensures
        r == still_holds(snapshot@, state@),
{
    let ghost now = state@.current;
    let n: usize = state.current.len();
    let mut i: usize = 0;
    while i < n
        invariant
            i <= n,
            n == state.current@.len(),
            now == rewrite::snapshot_models(state.current@),
            forall|k: int| 0 <= k < i ==> #[trigger] now[k] != snapshot@,
        decreases n - i,
    {
        assert(now[i as int] == state.current@[i as int]@);
        if state.current[i].same(snapshot) {
            assert(state@.current[i as int] == snapshot@);
            return true;
        }
        i += 1;
    }
    assert(!now.contains(snapshot@));
    false
}

/// What the store says of an event that is to be written.
pub struct EventState {
    /// For each source of the event, the interaction of the stored event it names.
    pub owners: Vec<Option<String>>,
    /// The interaction exists and is not suppressed.
    pub alive: bool,
    /// What is stored under the event's identity.
    pub stored: Option<String>,
    /// What the event encodes to.
    pub payload: String,
}

/// The contents of [`EventState`].
#[verifier::ext_equal]
pub struct EventStateModel {
    pub owners: Seq<Option<Seq<char>>>,
    pub alive: bool,
    pub stored: Option<Seq<char>>,
    pub payload: Seq<char>,
}

impl View for EventState {
    type V = EventStateModel;

    open spec fn view(&self) -> EventStateModel {
        EventStateModel {
            owners: self.owners@.map_values(|x: Option<String>| models::opt_text(x)),
            alive: self.alive,
            stored: models::opt_text(self.stored),
            payload: self.payload@,
        }
    }
}

/// The contents of states.
pub open spec fn event_state_models(s: Seq<EventState>) -> Seq<EventStateModel> {
    s.map_values(|x: EventState| x@)
}

/// The store holds other content under the event's identity.
pub open spec fn clashes(state: EventStateModel) -> bool {
    state.stored matches Some(held) && held != state.payload
}

fn has_clash(state: &EventState) -> (r: bool)
    ensures
        r == clashes(state@),
{
    match &state.stored {
        Some(held) => !text_equal(held.as_str(), state.payload.as_str()),
        None => false,
    }
}

/// What to write for an event: the event itself unless it is stored, and the
/// authority that it inherits.
pub struct EventWrite {
    pub insert: bool,
    pub authorizations: Vec<SourceAuthorizationRow>,
}

/// The contents of [`EventWrite`].
#[verifier::ext_equal]
pub struct EventWriteModel {
    pub insert: bool,
    pub authorizations: Seq<AuthorizationModel>,
}

impl View for EventWrite {
    type V = EventWriteModel;

    open spec fn view(&self) -> EventWriteModel {
        EventWriteModel {
            insert: self.insert,
            authorizations: models::authorization_models(self.authorizations@),
        }
    }
}

/// The contents of writes.
pub open spec fn write_models(s: Seq<EventWrite>) -> Seq<EventWriteModel> {
    s.map_values(|x: EventWrite| x@)
}

/// The authority rows of a snapshot.
pub open spec fn snapshot_rows(s: SnapshotModel) -> Seq<AuthorizationModel> {
    match s {
        SnapshotModel::Legacy { authorization_rows, .. } => authorization_rows,
        SnapshotModel::Event { authorization_rows, .. } => authorization_rows,
    }
}

/// The authority rows of those of the first `k` snapshots that the event cites.
/// Authority comes from the exact sources, never from the interaction alone.
pub open spec fn inherited(e: EventModel, snapshots: Seq<SnapshotModel>, k: nat) -> Seq<
    AuthorizationModel,
>
    decreases k,
{
    if k == 0 {
        Seq::empty()
    } else if e.sources.contains(rewrite::snapshot_source(snapshots[k - 1])) {
        inherited(e, snapshots, (k - 1) as nat) + snapshot_rows(snapshots[k - 1])
    } else {
        inherited(e, snapshots, (k - 1) as nat)
    }
}

fn add_rows(out: &mut Vec<SourceAuthorizationRow>, snapshot: &SourceSnapshot)
    ensures
        models::authorization_models(final(out)@) == models::authorization_models(old(out)@)
            + snapshot_rows(snapshot@),
{
    let ghost start = models::authorization_models(out@);
    let rows = match snapshot {
        SourceSnapshot::Legacy { authorization_rows, .. } => authorization_rows,
        SourceSnapshot::Event { authorization_rows, .. } => authorization_rows,
    };
    let ghost added = models::authorization_models(rows@);
    let n: usize = rows.len();
    let mut i: usize = 0;
    assert(start + added.take(0) =~= start);
    while i < n
        invariant
            i <= n,
            n == rows@.len(),
            added == models::authorization_models(rows@),
            models::authorization_models(out@) == start + added.take(i as int),
        decreases n - i,
    {
        let ghost held = models::authorization_models(out@);
        out.push(rows[i].clone());
        assert(models::authorization_models(out@) =~= held.push(added[i as int]));
        i += 1;
        assert(start + added.take(i as int) =~= held.push(added[i - 1]));
    }
    assert(added.take(n as int) =~= added);
}

fn inherit(event: &DerivationEvent, snapshots: &Vec<SourceSnapshot>) -> (r: Vec<
    SourceAuthorizationRow,
>)
    ensures
        models::authorization_models(r@) == inherited(
            event@,
            rewrite::snapshot_models(snapshots@),
            snapshots@.len(),
        ),
{
    let ghost all = rewrite::snapshot_models(snapshots@);
    let n: usize = snapshots.len();
    let mut out: Vec<SourceAuthorizationRow> = Vec::new();
    assert(models::authorization_models(out@) =~= Seq::<AuthorizationModel>::empty());
    let mut i: usize = 0;
    while i < n
        invariant
            i <= n,
            n == snapshots@.len(),
            all == rewrite::snapshot_models(snapshots@),
            models::authorization_models(out@) == inherited(event@, all, i as nat),
        decreases n - i,
    {
        assert(all[i as int] == snapshots@[i as int]@);
        let source = snapshot_source_id(&snapshots[i]);
        if holds(&event.source_event_ids, source.as_str()) {
            add_rows(&mut out, &snapshots[i]);
        }
        i += 1;
    }
    out
}

/// An event that a rewrite may write.
pub open spec fn sound_rewrite_event(e: EventModel) -> bool {
    &&& e.event_id == models::event_identity(e)
    &&& order::strictly_sorted(e.sources)
    &&& e.sources.len() > 0
    &&& e.relation is RewriteExact
    &&& e.evidence.kind is LocallyObserved
    &&& e.origin is LocalHook
}

proof fn lemma_rewrite_event_sound(
    pair: (Seq<char>, Seq<char>),
    interaction: InteractionId,
    source: Seq<char>,
)
    ensures
        sound_rewrite_event(rewrite::rewrite_event(pair, interaction, source)),
{
    let e = rewrite::rewrite_event(pair, interaction, source);
    let bare = EventModel { event_id: Seq::empty(), ..e };
    assert(models::event_payload(e) == models::event_payload(bare));
}

proof fn lemma_pair_events_sound(
    pair: (Seq<char>, Seq<char>),
    sources: Seq<RewriteSourceModel>,
    k: nat,
    j: int,
)
    requires
        0 <= j < rewrite::pair_events(pair, sources, k).len(),
    ensures
        sound_rewrite_event(rewrite::pair_events(pair, sources, k)[j]),
    decreases k,
{
    if k > 0 {
        let before = rewrite::pair_events(pair, sources, (k - 1) as nat);
        if j < before.len() {
            lemma_pair_events_sound(pair, sources, (k - 1) as nat, j);
        } else {
            let x = sources[k - 1];
            lemma_rewrite_event_sound(
                pair,
                x.interaction,
                rewrite::snapshot_source(x.snapshots[j - before.len()]),
            );
        }
    }
}

/// Every event that a rewrite notice asks for is one that the ledger may write:
/// it carries its own identity, names a source, and says that it was observed
/// here.
pub proof fn law_rewrite_events_are_sound(facts: Seq<RewriteFactsModel>, k: nat, j: int)
    requires
        0 <= j < rewrite::batch_events(facts, k).len(),
    ensures
        sound_rewrite_event(rewrite::batch_events(facts, k)[j]),
    decreases k,
{
    if k > 0 {
        let before = rewrite::batch_events(facts, (k - 1) as nat);
        if j < before.len() {
            law_rewrite_events_are_sound(facts, (k - 1) as nat, j);
        } else {
            let x = facts[k - 1];
            lemma_pair_events_sound(x.pair, x.sources, x.sources.len(), j - before.len());
        }
    }
}

/// The first snapshot, at or behind `k`, that stands for a source.
pub open spec fn find_source(
    snapshots: Seq<SnapshotModel>,
    states: Seq<SourceStateModel>,
    source: Seq<char>,
    k: int,
) -> Option<int>
    decreases snapshots.len() - k,
{
    if k < 0 || k >= snapshots.len() {
        None
    } else if verified_source(snapshots[k], states[k]) == Some(source) {
        Some(k)
    } else {
        find_source(snapshots, states, source, k + 1)
    }
}

/// The source of an event belongs to the event's interaction.
pub open spec fn source_owned(
    e: EventModel,
    source: Seq<char>,
    owner: Option<Seq<char>>,
    s: SnapshotModel,
    state: SourceStateModel,
) -> bool {
    match derivation::legacy_source(source) {
        Some(link) => link.0 == e.interaction_id.text() && snapshot_owner(s, state) == Some(link.0),
        None => {
            &&& derivation::event_source(source)
            &&& s matches SnapshotModel::Event { event_id, .. } && event_id == source
            &&& owner == Some(e.interaction_id.text())
        },
    }
}

/// The first fault among the sources of an event, at or behind the `j`-th.
pub open spec fn cited_fault(
    e: EventModel,
    state: EventStateModel,
    snapshots: Seq<SnapshotModel>,
    states: Seq<SourceStateModel>,
    j: int,
) -> Option<LedgerFault>
    decreases e.sources.len() - j,
{
    if j < 0 || j >= e.sources.len() {
        None
    } else {
        match find_source(snapshots, states, e.sources[j], 0) {
            None => Some(LedgerFault::Invalid("rewrite source not snapshotted"@)),
            Some(i) => if !source_owned(
                e,
                e.sources[j],
                state.owners[j],
                snapshots[i],
                states[i],
            ) {
                Some(LedgerFault::Invalid("rewrite source ownership mismatch"@))
            } else {
                cited_fault(e, state, snapshots, states, j + 1)
            },
        }
    }
}

/// Why a rewrite may not write an event.
pub open spec fn rewrite_event_fault(
    e: EventModel,
    state: EventStateModel,
    snapshots: Seq<SnapshotModel>,
    states: Seq<SourceStateModel>,
) -> Option<LedgerFault> {
    if !sound_rewrite_event(e) {
        Some(LedgerFault::Invalid("invalid rewrite derivation"@))
    } else if cited_fault(e, state, snapshots, states, 0) is Some {
        cited_fault(e, state, snapshots, states, 0)
    } else if !state.alive {
        Some(LedgerFault::Invalid("rewrite source interaction missing or tombstoned"@))
    } else if clashes(state) {
        Some(LedgerFault::Conflict("rewrite event conflict"@))
    } else {
        None
    }
}

fn position_of_source(snapshots: &Vec<SourceSnapshot>, states: &Vec<SourceState>, source: &str) -> (r:
    Option<usize>)
    requires
        snapshots@.len() == states@.len(),
    ensures
        match r {
            Some(i) => i < snapshots@.len() && find_source(
                rewrite::snapshot_models(snapshots@),
                state_models(states@),
                source@,
                0,
            ) == Some(i as int),
            None => find_source(
                rewrite::snapshot_models(snapshots@),
                state_models(states@),
                source@,
                0,
            ) is None,
        },
{
    let ghost all = rewrite::snapshot_models(snapshots@);
    let ghost seen = state_models(states@);
    let n: usize = snapshots.len();
    let mut i: usize = 0;
    while i < n
        invariant
            i <= n,
            n == snapshots@.len(),
            n == states@.len(),
            all == rewrite::snapshot_models(snapshots@),
            seen == state_models(states@),
            find_source(all, seen, source@, 0) == find_source(all, seen, source@, i as int),
        decreases n - i,
    {
        assert(all[i as int] == snapshots@[i as int]@);
        assert(seen[i as int] == states@[i as int]@);
        if source_is(&snapshots[i], &states[i], source) {
            return Some(i);
        }
        i += 1;
    }
    None
}

fn is_owned(
    event: &DerivationEvent,
    source: &str,
    owner: &Option<String>,
    snapshot: &SourceSnapshot,
    state: &SourceState,
) -> (r: bool)
    ensures
        r == source_owned(event@, source@, models::opt_text(*owner), snapshot@, state@),
{
    let id = event.interaction_id.as_str();
    match parse_legacy_source(source) {
        Some(link) => text_equal(link.0.as_str(), id.as_str()) && owner_is(
            snapshot,
            state,
            link.0.as_str(),
        ),
        None => {
            if !is_event_source(source) {
                return false;
            }
            let named = match snapshot {
                SourceSnapshot::Event { event_id, .. } => text_equal(event_id.as_str(), source),
                SourceSnapshot::Legacy { .. } => false,
            };
            let owned = match owner {
                Some(o) => text_equal(o.as_str(), id.as_str()),
                None => false,
            };
            named && owned
        },
    }
}

fn check_cited(
    event: &DerivationEvent,
    state: &EventState,
    snapshots: &Vec<SourceSnapshot>,
    states: &Vec<SourceState>,
) -> (r: Result<(), DbError>)
    requires
        snapshots@.len() == states@.len(),
        state.owners@.len() == event.source_event_ids@.len(),
    ensures
        ({
            let fault = cited_fault(
                event@,
                state@,
                rewrite::snapshot_models(snapshots@),
                state_models(states@),
                0,
            );
            match r {
                Ok(()) => fault is None,
                Err(e) => fault is Some && reports(e, fault->0),
            }
        }),
{
    let ghost all = rewrite::snapshot_models(snapshots@);
    let ghost seen = state_models(states@);
    let ghost m = event@;
    let ghost fault = cited_fault(m, state@, all, seen, 0);
    let n: usize = event.source_event_ids.len();
    let mut j: usize = 0;
    while j < n
        invariant
            j <= n,
            n == event.source_event_ids@.len(),
            n == state.owners@.len(),
            snapshots@.len() == states@.len(),
            all == rewrite::snapshot_models(snapshots@),
            seen == state_models(states@),
            m == event@,
            fault == cited_fault(m, state@, all, seen, 0),
            fault == cited_fault(m, state@, all, seen, j as int),
        decreases n - j,
    {
        assert(m.sources[j as int] == event.source_event_ids@[j as int]@);
        assert(state@.owners[j as int] == models::opt_text(state.owners@[j as int]));
        match position_of_source(snapshots, states, event.source_event_ids[j].as_str()) {
            None => {
                return Err(invalid_link("rewrite source not snapshotted"));
            },
            Some(i) => {
                assert(all[i as int] == snapshots@[i as int]@);
                assert(seen[i as int] == states@[i as int]@);
                if !is_owned(
                    event,
                    event.source_event_ids[j].as_str(),
                    &state.owners[j],
                    &snapshots[i],
                    &states[i],
                ) {
                    return Err(invalid_link("rewrite source ownership mismatch"));
                }
            },
        }
        j += 1;
    }
    Ok(())
}

/// Decides on one event of a rewrite.
pub fn admit_rewrite_event(
    event: &DerivationEvent,
    state: &EventState,
    snapshots: &Vec<SourceSnapshot>,
    states: &Vec<SourceState>,
) -> (r: Result<EventWrite, DbError>)
    requires
        snapshots@.len() == states@.len(),
        state.owners@.len() == event.source_event_ids@.len(),
    ensures
        ({
            let all = rewrite::snapshot_models(snapshots@);
            let fault = rewrite_event_fault(event@, state@, all, state_models(states@));
            match r {
                Ok(w) => fault is None && w@ == (EventWriteModel {
                    insert: state.stored is None,
                    authorizations: inherited(event@, all, all.len()),
                }),
                Err(e) => fault is Some && reports(e, fault->0),
            }
        }),
{
    if !event.verify_id() || !event.sources_are_canonical() || event.source_event_ids.len() == 0
        || event.relation != DerivationRelation::RewriteExact || event.evidence.kind
        != EvidenceKind::LocallyObserved || event.origin != DerivationOrigin::LocalHook {
        return Err(invalid_link("invalid rewrite derivation"));
    }
    match check_cited(event, state, snapshots, states) {
        Err(e) => {
            return Err(e);
        },
        Ok(()) => {},
    }
    if !state.alive {
        return Err(invalid_link("rewrite source interaction missing or tombstoned"));
    }
    if has_clash(state) {
        return Err(link_conflict("rewrite event conflict"));
    }
    Ok(EventWrite { insert: state.stored.is_none(), authorizations: inherit(event, snapshots) })
}

/// What a rewrite batch comes to.
pub enum RewriteDecision {
    /// The very batch was applied before.
    AlreadyApplied,
    /// The events are to be written.
    Write(Vec<EventWrite>),
}

/// The first event, at or behind the `k`-th, that may not be written.
pub open spec fn events_fault_from(
    events: Seq<EventModel>,
    event_states: Seq<EventStateModel>,
    snapshots: Seq<SnapshotModel>,
    states: Seq<SourceStateModel>,
    k: int,
) -> Option<LedgerFault>
    decreases events.len() - k,
{
    if k < 0 || k >= events.len() {
        None
    } else {
        match rewrite_event_fault(events[k], event_states[k], snapshots, states) {
            Some(f) => Some(f),
            None => events_fault_from(events, event_states, snapshots, states, k + 1),
        }
    }
}

/// Why a rewrite batch is abandoned: a source changed since it was read, or an
/// event may not be written.
pub open spec fn rewrite_fault(
    events: Seq<EventModel>,
    event_states: Seq<EventStateModel>,
    snapshots: Seq<SnapshotModel>,
    states: Seq<SourceStateModel>,
) -> Option<LedgerFault> {
    if exists|i: int|
        0 <= i < snapshots.len() && !still_holds(#[trigger] snapshots[i], states[i]) {
        Some(LedgerFault::Conflict("rewrite source changed during preflight"@))
    } else {
        events_fault_from(events, event_states, snapshots, states, 0)
    }
}

/// What a rewrite batch writes for its events.
pub open spec fn rewrite_writes(
    events: Seq<EventModel>,
    event_states: Seq<EventStateModel>,
    snapshots: Seq<SnapshotModel>,
) -> Seq<EventWriteModel> {
    Seq::new(
        events.len(),
        |k: int|
            EventWriteModel {
                insert: event_states[k].stored is None,
                authorizations: inherited(events[k], snapshots, snapshots.len()),
            },
    )
}

/// The states speak of every snapshot, every event and every source of an event.
pub open spec fn states_complete(
    events: Seq<DerivationEvent>,
    event_states: Seq<EventState>,
    snapshots: Seq<SourceSnapshot>,
    states: Seq<SourceState>,
) -> bool {
    &&& snapshots.len() == states.len()
    &&& events.len() == event_states.len()
    &&& forall|k: int|
        0 <= k < events.len() ==> (#[trigger] event_states[k]).owners@.len()
            == events[k].source_event_ids@.len()
}

/// Decides on a rewrite batch from what the store says inside the transaction.
/// A batch is applied once; every source must still give the snapshot that the
/// batch was built on.
pub fn decide_rewrite(
    applied: &Option<(String, String)>,
    mode: &str,
    payload_hash: &str,
    events: &Vec<DerivationEvent>,
    event_states: &Vec<EventState>,
    snapshots: &Vec<SourceSnapshot>,
    states: &Vec<SourceState>,
) -> (r: Result<RewriteDecision, DbError>)
    requires
        states_complete(events@, event_states@, snapshots@, states@),
    ensures
        ({
            let all = rewrite::snapshot_models(snapshots@);
            let ms = derivation::models(events@);
            let fault = rewrite_fault(
                ms,
                event_state_models(event_states@),
                all,
                state_models(states@),
            );
            match *applied {
                Some(held) => if held.0@ == mode@ && held.1@ == payload_hash@ {
                    r matches Ok(d) && d is AlreadyApplied
                } else {
                    r matches Err(e) && store::conflict(e, "rewrite batch identity conflict"@)
                },
                None => match r {
                    Ok(d) => fault is None && (d matches RewriteDecision::Write(writes)
                        && write_models(writes@) == rewrite_writes(
                        ms,
                        event_state_models(event_states@),
                        all,
                    )),
                    Err(e) => fault is Some && reports(e, fault->0),
                },
            }
        }),
{
    let ghost all = rewrite::snapshot_models(snapshots@);
    let ghost seen = state_models(states@);
    let ghost ms = derivation::models(events@);
    let ghost es = event_state_models(event_states@);
    match applied {
        Some(held) => {
            if text_equal(held.0.as_str(), mode) && text_equal(held.1.as_str(), payload_hash) {
                return Ok(RewriteDecision::AlreadyApplied);
            }
            return Err(link_conflict("rewrite batch identity conflict"));
        },
        None => {},
    }
    let ghost fault = rewrite_fault(ms, es, all, seen);
    let n: usize = snapshots.len();
    let mut i: usize = 0;
    while i < n
        invariant
            i <= n,
            n == snapshots@.len(),
            n == states@.len(),
            *applied is None,
            all == rewrite::snapshot_models(snapshots@),
            seen == state_models(states@),
            ms == derivation::models(events@),
            es == event_state_models(event_states@),
            fault == rewrite_fault(ms, es, all, seen),
            forall|k: int| 0 <= k < i ==> still_holds(#[trigger] all[k], seen[k]),
        decreases n - i,
    {
        assert(all[i as int] == snapshots@[i as int]@);
        assert(seen[i as int] == states@[i as int]@);
        if !snapshot_matches(&snapshots[i], &states[i]) {
            assert(!still_holds(all[i as int], seen[i as int]));
            return Err(link_conflict("rewrite source changed during preflight"));
        }
        i += 1;
    }
    assert(fault == events_fault_from(ms, es, all, seen, 0));
    let m: usize = events.len();
    let mut writes: Vec<EventWrite> = Vec::new();
    let mut k: usize = 0;
    let ghost wanted = rewrite_writes(ms, es, all);
    assert(write_models(writes@) =~= wanted.take(0));
    while k < m
        invariant
            k <= m,
            m == events@.len(),
            *applied is None,
            states_complete(events@, event_states@, snapshots@, states@),
            all == rewrite::snapshot_models(snapshots@),
            seen == state_models(states@),
            ms == derivation::models(events@),
            es == event_state_models(event_states@),
            fault == rewrite_fault(ms, es, all, seen),
            fault == events_fault_from(ms, es, all, seen, k as int),
            wanted == rewrite_writes(ms, es, all),
            write_models(writes@) == wanted.take(k as int),
        decreases m - k,
    {
        assert(ms[k as int] == events@[k as int]@);
        assert(es[k as int] == event_states@[k as int]@);
        let ghost held = write_models(writes@);
        match admit_rewrite_event(&events[k], &event_states[k], snapshots, states) {
            Err(e) => {
                return Err(e);
            },
            Ok(w) => {
                assert(w@ == wanted[k as int]);
                writes.push(w);
                assert(write_models(writes@) =~= held.push(wanted[k as int]));
            },
        }
        k += 1;
        assert(write_models(writes@) =~= wanted.take(k as int));
    }
    assert(wanted.take(m as int) =~= wanted);
    Ok(RewriteDecision::Write(writes))
}

/// No event is written on a source that changed since it was read.
pub proof fn law_changed_source_blocks_rewrite(
    events: Seq<EventModel>,
    event_states: Seq<EventStateModel>,
    snapshots: Seq<SnapshotModel>,
    states: Seq<SourceStateModel>,
    i: int,
)
    requires
        0 <= i < snapshots.len(),
        !states[i].current.contains(snapshots[i]),
    ensures
        rewrite_fault(events, event_states, snapshots, states) == Some(
            LedgerFault::Conflict("rewrite source changed during preflight"@),
        ),
{
    assert(!still_holds(snapshots[i], states[i]));
}

/// A stored source of a range: interaction, source and encoded snapshot.
pub struct SourceRow {
    pub interaction: String,
    pub source_id: String,
    pub snapshot: String,
}

/// What the repository and the store say of a squash inside the transaction.
pub struct SquashState {
    pub cursor: Option<String>,
    /// The reference that is checked out, and its commit.
    pub head_name: Option<String>,
    pub head_commit: Option<String>,
    /// The parents of the candidate, where it can be read.
    pub parents: Option<Vec<String>>,
    /// What is stored under the range's identity, and what the range encodes to.
    pub range_stored: String,
    pub range_payload: String,
    /// The stored sources of the range, in order, and what the plan's snapshots
    /// encode to.
    pub rows: Vec<SourceRow>,
    pub encoded: Vec<String>,
    /// For each source of the plan, what it is now.
    pub sources: Vec<SourceState>,
    /// For each event of the plan, what the store says of it.
    pub events: Vec<EventState>,
    /// The parent under which the candidate is queued.
    pub pending_parent: String,
}

/// The repository is where the plan was built: the same reference and commit are
/// checked out, and the candidate stands on its parent.
pub open spec fn repository_stands(target: SquashTarget, state: SquashState) -> bool {
    &&& models::opt_text(state.cursor) == Some(target.expected_cursor@)
    &&& models::opt_text(state.head_name) == Some(target.symbolic_ref@)
    &&& models::opt_text(state.head_commit) == Some(target.expected_head@)
    &&& state.parents matches Some(p) && p.deep_view() == seq![target.expected_parent@]
}

/// The stored sources are the plan's sources, one for one.
pub open spec fn rows_stand(
    sources: Seq<RangeSourceModel>,
    rows: Seq<SourceRow>,
    encoded: Seq<String>,
) -> bool {
    &&& rows.len() == sources.len()
    &&& encoded.len() == sources.len()
    &&& forall|i: int|
        0 <= i < sources.len() ==> (#[trigger] rows[i]).interaction@
            == sources[i].interaction_id.text() && rows[i].source_id@ == sources[i].source_id
            && rows[i].snapshot@ == encoded[i]@
}

/// The first fault among the sources of a plan, at or behind the `k`-th: one
/// that belongs to another interaction, or one that changed.
pub open spec fn squash_source_fault(
    sources: Seq<RangeSourceModel>,
    states: Seq<SourceStateModel>,
    k: int,
) -> Option<LedgerFault>
    decreases sources.len() - k,
{
    if k < 0 || k >= sources.len() {
        None
    } else {
        let s = sources[k];
        if snapshot_owner(s.snapshot, states[k]) != Some(s.interaction_id.text())
            || verified_source(s.snapshot, states[k]) != Some(s.source_id) {
            Some(LedgerFault::Invalid("squash source ownership mismatch"@))
        } else if !still_holds(s.snapshot, states[k]) {
            Some(LedgerFault::Conflict("squash source changed"@))
        } else {
            squash_source_fault(sources, states, k + 1)
        }
    }
}

/// The sources among the first `k` that an event cites of its interaction.
pub open spec fn cited_sources(e: EventModel, sources: Seq<RangeSourceModel>, k: nat) -> Seq<
    RangeSourceModel,
>
    decreases k,
{
    if k == 0 {
        Seq::empty()
    } else if sources[k - 1].interaction_id == e.interaction_id && e.sources.contains(
        sources[k - 1].source_id,
    ) {
        cited_sources(e, sources, (k - 1) as nat).push(sources[k - 1])
    } else {
        cited_sources(e, sources, (k - 1) as nat)
    }
}

/// The names of source records.
pub open spec fn source_names(s: Seq<RangeSourceModel>) -> Seq<Seq<char>> {
    s.map_values(|x: RangeSourceModel| x.source_id)
}

/// The authority rows of source records, one behind the other.
pub open spec fn all_rows(s: Seq<RangeSourceModel>) -> Seq<AuthorizationModel>
    decreases s.len(),
{
    if s.len() == 0 {
        Seq::empty()
    } else {
        all_rows(s.drop_last()) + snapshot_rows(s.last().snapshot)
    }
}

/// The first fault among the events of a plan, at or behind the `k`-th.
pub open spec fn squash_events_fault(
    events: Seq<EventModel>,
    states: Seq<EventStateModel>,
    sources: Seq<RangeSourceModel>,
    k: int,
) -> Option<LedgerFault>
    decreases events.len() - k,
{
    if k < 0 || k >= events.len() {
        None
    } else if !states[k].alive {
        Some(LedgerFault::Conflict("squash source tombstoned"@))
    } else if clashes(states[k]) {
        Some(LedgerFault::Conflict("squash event conflict"@))
    } else if source_names(cited_sources(events[k], sources, sources.len())) != events[k].sources {
        Some(LedgerFault::Invalid("squash source ownership mismatch"@))
    } else {
        squash_events_fault(events, states, sources, k + 1)
    }
}

/// Why a squash is abandoned.
pub open spec fn squash_fault(plan: ValidatedSquashPlan, state: SquashState) -> Option<
    LedgerFault,
> {
    let sources = plan.sources_spec();
    let states = state_models(state.sources@);
    let event_states = event_state_models(state.events@);
    if !repository_stands(plan.target_spec(), state) {
        Some(LedgerFault::Conflict("squash cursor or HEAD changed"@))
    } else if state.range_stored@ != state.range_payload@ {
        Some(LedgerFault::Conflict("squash range changed"@))
    } else if !rows_stand(sources, state.rows@, state.encoded@) {
        Some(LedgerFault::Conflict("complete squash source set changed"@))
    } else if squash_source_fault(sources, states, 0) is Some {
        squash_source_fault(sources, states, 0)
    } else if squash_events_fault(plan.events_spec(), event_states, sources, 0) is Some {
        squash_events_fault(plan.events_spec(), event_states, sources, 0)
    } else if state.pending_parent@ != plan.target_spec().expected_parent@ {
        Some(LedgerFault::Conflict("squash topology snapshot changed"@))
    } else {
        None
    }
}

/// What a squash writes for its events.
pub open spec fn squash_writes(
    events: Seq<EventModel>,
    states: Seq<EventStateModel>,
    sources: Seq<RangeSourceModel>,
) -> Seq<EventWriteModel> {
    Seq::new(
        events.len(),
        |k: int|
            EventWriteModel {
                insert: states[k].stored is None,
                authorizations: all_rows(cited_sources(events[k], sources, sources.len())),
            },
    )
}

fn opt_is(o: &Option<String>, x: &str) -> (r: bool)
    ensures
        r == (models::opt_text(*o) == Some(x@)),
{
    match o {
        Some(s) => text_equal(s.as_str(), x),
        None => false,
    }
}

fn rows_agree(sources: &Vec<RangeSourceSnapshot>, rows: &Vec<SourceRow>, encoded: &Vec<String>) -> (r:
    bool)
    ensures
        r == rows_stand(models::range_source_models(sources@), rows@, encoded@),
{
    let ghost ms = models::range_source_models(sources@);
    let n: usize = sources.len();
    if rows.len() != n || encoded.len() != n {
        return false;
    }
    let mut i: usize = 0;
    while i < n
        invariant
            i <= n,
            n == sources@.len(),
            n == rows@.len(),
            n == encoded@.len(),
            ms == models::range_source_models(sources@),
            forall|k: int|
                0 <= k < i ==> (#[trigger] rows@[k]).interaction@ == ms[k].interaction_id.text()
                    && rows@[k].source_id@ == ms[k].source_id && rows@[k].snapshot@ == encoded@[k]@,
        decreases n - i,
    {
        assert(ms[i as int] == sources@[i as int]@);
        let row = &rows[i];
        if !text_equal(row.interaction.as_str(), sources[i].interaction_id.as_str().as_str())
            || !text_equal(row.source_id.as_str(), sources[i].source_id.as_str()) || !text_equal(
            row.snapshot.as_str(),
            encoded[i].as_str(),
        ) {
            assert(rows@[i as int] == *row);
            return false;
        }
        i += 1;
    }
    true
}

fn check_squash_sources(sources: &Vec<RangeSourceSnapshot>, states: &Vec<SourceState>) -> (r: Result<
    (),
    DbError,
>)
    requires
        sources@.len() == states@.len(),
    ensures
        ({
            let fault = squash_source_fault(
                models::range_source_models(sources@),
                state_models(states@),
                0,
            );
            match r {
                Ok(()) => fault is None,
                Err(e) => fault is Some && reports(e, fault->0),
            }
        }),
{
    let ghost ms = models::range_source_models(sources@);
    let ghost seen = state_models(states@);
    let n: usize = sources.len();
    let mut i: usize = 0;
    while i < n
        invariant
            i <= n,
            n == sources@.len(),
            n == states@.len(),
            ms == models::range_source_models(sources@),
            seen == state_models(states@),
            squash_source_fault(ms, seen, 0) == squash_source_fault(ms, seen, i as int),
        decreases n - i,
    {
        assert(ms[i as int] == sources@[i as int]@);
        assert(seen[i as int] == states@[i as int]@);
        let source = &sources[i];
        if !owner_is(&source.snapshot, &states[i], source.interaction_id.as_str().as_str())
            || !source_is(&source.snapshot, &states[i], source.source_id.as_str()) {
            return Err(invalid_link("squash source ownership mismatch"));
        }
        if !snapshot_matches(&source.snapshot, &states[i]) {
            return Err(link_conflict("squash source changed"));
        }
        i += 1;
    }
    Ok(())
}

/// The names and the authority rows of the sources that an event cites.
fn collect_cited(event: &DerivationEvent, sources: &Vec<RangeSourceSnapshot>) -> (r: (
    Vec<String>,
    Vec<SourceAuthorizationRow>,
))
    ensures
        ({
            let ms = models::range_source_models(sources@);
            let cited = cited_sources(event@, ms, ms.len());
            &&& r.0.deep_view() == source_names(cited)
            &&& models::authorization_models(r.1@) == all_rows(cited)
        }),
{
    let ghost ms = models::range_source_models(sources@);
    let n: usize = sources.len();
    let mut names: Vec<String> = Vec::new();
    let mut rows: Vec<SourceAuthorizationRow> = Vec::new();
    let ghost mut cited: Seq<RangeSourceModel> = Seq::empty();
    assert(names.deep_view() =~= source_names(cited));
    assert(models::authorization_models(rows@) =~= all_rows(cited));
    let mut i: usize = 0;
    while i < n
        invariant
            i <= n,
            n == sources@.len(),
            ms == models::range_source_models(sources@),
            cited == cited_sources(event@, ms, i as nat),
            names.deep_view() == source_names(cited),
            models::authorization_models(rows@) == all_rows(cited),
        decreases n - i,
    {
        let source = &sources[i];
        assert(ms[i as int] == source@);
        if source.interaction_id == event.interaction_id && holds(
            &event.source_event_ids,
            source.source_id.as_str(),
        ) {
            let ghost held = names.deep_view();
            names.push(source.source_id.clone());
            add_rows(&mut rows, &source.snapshot);
            proof {
                let next = cited.push(ms[i as int]);
                assert(names.deep_view() =~= held.push(source.source_id@));
                assert(source_names(next) =~= held.push(source.source_id@));
                assert(next.drop_last() =~= cited);
                cited = next;
            }
        }
        i += 1;
    }
    (names, rows)
}

/// Decides on a validated squash plan from what the repository and the store say
/// inside the transaction. That the events partition the sources is settled by
/// the plan itself.
pub fn decide_squash(plan: &ValidatedSquashPlan, state: &SquashState) -> (r: Result<
    Vec<EventWrite>,
    DbError,
>)
    requires
        state.sources@.len() == plan.sources_spec().len(),
        state.events@.len() == plan.events_spec().len(),
    ensures
        ({
            let fault = squash_fault(*plan, *state);
            match r {
                Ok(writes) => fault is None && write_models(writes@) == squash_writes(
                    plan.events_spec(),
                    event_state_models(state.events@),
                    plan.sources_spec(),
                ),
                Err(e) => fault is Some && reports(e, fault->0),
            }
        }),
{
    let target = plan.target();
    let sources = plan.sources();
    let events = plan.events();
    let ghost ms = models::range_source_models(sources@);
    let ghost es = derivation::models(events@);
    let ghost states = event_state_models(state.events@);
    let on_parent = match &state.parents {
        Some(p) => {
            assert(p.deep_view().len() == p@.len());
            let one = p.len() == 1 && text_equal(p[0].as_str(), target.expected_parent.as_str());
            proof {
                if one {
                    assert(p.deep_view()[0] == p@[0]@);
                    assert(p.deep_view() =~= seq![target.expected_parent@]);
                } else if p.deep_view() == seq![target.expected_parent@] {
                    assert(p.deep_view()[0] == p@[0]@);
                    assert(seq![target.expected_parent@][0] == target.expected_parent@);
                }
            }
            one
        },
        None => false,
    };
    if !opt_is(&state.cursor, target.expected_cursor.as_str()) || !opt_is(
        &state.head_name,
        target.symbolic_ref.as_str(),
    ) || !opt_is(&state.head_commit, target.expected_head.as_str()) || !on_parent {
        return Err(link_conflict("squash cursor or HEAD changed"));
    }
    if !text_equal(state.range_stored.as_str(), state.range_payload.as_str()) {
        return Err(link_conflict("squash range changed"));
    }
    if !rows_agree(sources, &state.rows, &state.encoded) {
        return Err(link_conflict("complete squash source set changed"));
    }
    match check_squash_sources(sources, &state.sources) {
        Err(e) => {
            return Err(e);
        },
        Ok(()) => {},
    }
    let ghost first = squash_events_fault(es, states, ms, 0);
    let ghost wanted = squash_writes(es, states, ms);
    let m: usize = events.len();
    let mut writes: Vec<EventWrite> = Vec::new();
    let mut k: usize = 0;
    assert(write_models(writes@) =~= wanted.take(0));
    while k < m
        invariant
            k <= m,
            m == events@.len(),
            m == state.events@.len(),
            ms == models::range_source_models(sources@),
            es == derivation::models(events@),
            states == event_state_models(state.events@),
            ms == plan.sources_spec(),
            es == plan.events_spec(),
            repository_stands(plan.target_spec(), *state),
            state.range_stored@ == state.range_payload@,
            rows_stand(ms, state.rows@, state.encoded@),
            squash_source_fault(ms, state_models(state.sources@), 0) is None,
            first == squash_events_fault(es, states, ms, 0),
            first == squash_events_fault(es, states, ms, k as int),
            wanted == squash_writes(es, states, ms),
            write_models(writes@) == wanted.take(k as int),
        decreases m - k,
    {
        let event = &events[k];
        let facts = &state.events[k];
        assert(es[k as int] == event@);
        assert(states[k as int] == facts@);
        if !facts.alive {
            return Err(link_conflict("squash source tombstoned"));
        }
        if has_clash(facts) {
            return Err(link_conflict("squash event conflict"));
        }
        let (names, authorizations) = collect_cited(event, sources);
        if !texts_equal(&names, &event.source_event_ids) {
            return Err(invalid_link("squash source ownership mismatch"));
        }
        let ghost held = write_models(writes@);
        let w = EventWrite { insert: facts.stored.is_none(), authorizations };
        assert(w@ == wanted[k as int]);
        writes.push(w);
        assert(write_models(writes@) =~= held.push(wanted[k as int]));
        k += 1;
        assert(write_models(writes@) =~= wanted.take(k as int));
    }
    assert(wanted.take(m as int) =~= wanted);
    if !text_equal(state.pending_parent.as_str(), target.expected_parent.as_str()) {
        return Err(link_conflict("squash topology snapshot changed"));
    }
    Ok(writes)
}

/// A squash whose sources changed in the store writes nothing.
pub proof fn law_changed_source_blocks_squash(plan: ValidatedSquashPlan, state: SquashState)
    requires
        !rows_stand(plan.sources_spec(), state.rows@, state.encoded@),
    ensures
        squash_fault(plan, state) is Some,
{
}

/// The key of an observation that the store accepts.
pub open spec fn valid_source_key(key: Seq<char>) -> bool {
    0 < text::byte_len(key) <= MAX_SOURCE_KEY_BYTES
}

/// The first fault among the sources of an observed range, at or behind the `k`-th.
pub open spec fn observed_source_fault(
    sources: Seq<RangeSourceModel>,
    states: Seq<SourceStateModel>,
    stored: Seq<Option<Seq<char>>>,
    encoded: Seq<Seq<char>>,
    k: int,
) -> Option<LedgerFault>
    decreases sources.len() - k,
{
    if k < 0 || k >= sources.len() {
        None
    } else {
        let s = sources[k];
        if snapshot_owner(s.snapshot, states[k]) != Some(s.interaction_id.text())
            || verified_source(s.snapshot, states[k]) != Some(s.source_id) {
            Some(LedgerFault::Invalid("range source ownership mismatch"@))
        } else if stored[k] is Some && stored[k] != Some(encoded[k]) {
            Some(LedgerFault::Conflict("range source snapshot conflict"@))
        } else {
            observed_source_fault(sources, states, stored, encoded, k + 1)
        }
    }
}

/// Why an observation of a range is not kept.
pub open spec fn observation_fault(
    range: RangeModel,
    key: Seq<char>,
    stored: Option<(Seq<char>, Seq<char>)>,
    payload: Seq<char>,
) -> Option<LedgerFault> {
    if !models::valid_range(range) || !valid_source_key(key) {
        Some(LedgerFault::Invalid("invalid range evidence"@))
    } else if stored is Some && stored != Some(
        (payload, digest::digest_text(vstd::utf8::encode_utf8(payload))),
    ) {
        Some(LedgerFault::Conflict("range identity conflict"@))
    } else {
        None
    }
}

/// Checks an observed range against what is stored under its identity, and gives
/// the digest to store beside it.
pub fn check_observation(
    range: &RangeEvidence,
    source_key: &str,
    stored: &Option<(String, String)>,
    payload: &str,
) -> (r: Result<String, DbError>)
    ensures
        ({
            let fault = observation_fault(
                range@,
                source_key@,
                match *stored {
                    Some(held) => Some((held.0@, held.1@)),
                    None => None,
                },
                payload@,
            );
            match r {
                Ok(d) => fault is None && d@ == digest::digest_text(
                    vstd::utf8::encode_utf8(payload@),
                ),
                Err(e) => fault is Some && reports(e, fault->0),
            }
        }),
{
    let n: usize = bytes_len(source_key);
    if !range.verify_id() || n == 0 || n > MAX_SOURCE_KEY_BYTES {
        return Err(invalid_link("invalid range evidence"));
    }
    let digest = hex_digest(payload.as_bytes());
    match stored {
        Some(held) => {
            if !text_equal(held.0.as_str(), payload) || !text_equal(
                held.1.as_str(),
                digest.as_str(),
            ) {
                return Err(link_conflict("range identity conflict"));
            }
        },
        None => {},
    }
    Ok(digest)
}

/// Checks the sources of an observed range against what is stored for them.
pub fn check_observed_sources(
    sources: &Vec<RangeSourceSnapshot>,
    states: &Vec<SourceState>,
    stored: &Vec<Option<String>>,
    encoded: &Vec<String>,
) -> (r: Result<(), DbError>)
    requires
        states@.len() == sources@.len(),
        stored@.len() == sources@.len(),
        encoded@.len() == sources@.len(),
    ensures
        ({
            let fault = observed_source_fault(
                models::range_source_models(sources@),
                state_models(states@),
                stored@.map_values(|x: Option<String>| models::opt_text(x)),
                encoded.deep_view(),
                0,
            );
            match r {
                Ok(()) => fault is None,
                Err(e) => fault is Some && reports(e, fault->0),
            }
        }),
{
    let ghost ms = models::range_source_models(sources@);
    let ghost seen = state_models(states@);
    let ghost held = stored@.map_values(|x: Option<String>| models::opt_text(x));
    let ghost codes = encoded.deep_view();
    let n: usize = sources.len();
    let mut i: usize = 0;
    while i < n
        invariant
            i <= n,
            n == sources@.len(),
            n == states@.len(),
            n == stored@.len(),
            n == encoded@.len(),
            ms == models::range_source_models(sources@),
            seen == state_models(states@),
            held == stored@.map_values(|x: Option<String>| models::opt_text(x)),
            codes == encoded.deep_view(),
            observed_source_fault(ms, seen, held, codes, 0) == observed_source_fault(
                ms,
                seen,
                held,
                codes,
                i as int,
            ),
        decreases n - i,
    {
        let source = &sources[i];
        assert(ms[i as int] == source@);
        assert(seen[i as int] == states@[i as int]@);
        assert(held[i as int] == models::opt_text(stored@[i as int]));
        assert(codes[i as int] == encoded@[i as int]@);
        if !owner_is(&source.snapshot, &states[i], source.interaction_id.as_str().as_str())
            || !source_is(&source.snapshot, &states[i], source.source_id.as_str()) {
            return Err(invalid_link("range source ownership mismatch"));
        }
        match &stored[i] {
            Some(old) => {
                if !text_equal(old.as_str(), encoded[i].as_str()) {
                    return Err(link_conflict("range source snapshot conflict"));
                }
            },
            None => {},
        }
        i += 1;
    }
    Ok(())
}

/// Checks an imported range against what is stored under its identity. Gives
/// whether it is to be inserted.
pub fn import_range(range: &RangeEvidence, stored: &Option<String>, payload: &str) -> (r: Result<
    bool,
    DbError,
>)
    ensures
        match r {
            Ok(insert) => {
                &&& models::valid_range(range@)
                &&& insert == (*stored is None)
                &&& *stored is Some ==> (*stored)->0@ == payload@
            },
            Err(e) => if !models::valid_range(range@) {
                store::bad_link(e, "invalid imported range"@)
            } else {
                &&& *stored is Some
                &&& (*stored)->0@ != payload@
                &&& store::conflict(e, "imported range conflict"@)
            },
        },
{
    if !range.verify_id() {
        return Err(invalid_link("invalid imported range"));
    }
    match stored {
        Some(old) => {
            if !text_equal(old.as_str(), payload) {
                return Err(link_conflict("imported range conflict"));
            }
            Ok(false)
        },
        None => Ok(true),
    }
}

/// An imported event that the store takes in.
pub open spec fn sound_import(e: EventModel) -> bool {
    &&& e.event_id == models::event_identity(e)
    &&& order::strictly_sorted(e.sources)
    &&& derivation::is_commit_sha(e.target_commit)
}

/// Checks an imported event against what is stored under its identity. Gives
/// whether it is to be inserted.
pub fn import_event(event: &DerivationEvent, stored: &Option<String>, payload: &str) -> (r: Result<
    bool,
    DbError,
>)
    ensures
        match r {
            Ok(insert) => {
                &&& sound_import(event@)
                &&& insert == (*stored is None)
                &&& *stored is Some ==> (*stored)->0@ == payload@
            },
            Err(e) => if !sound_import(event@) {
                store::bad_link(e, "invalid imported derivation event"@)
            } else {
                &&& *stored is Some
                &&& (*stored)->0@ != payload@
                &&& store::conflict(e, "imported derivation conflict"@)
            },
        },
{
    if !event.verify_id() || !event.sources_are_canonical() || !is_safe_commit_sha(
        event.target_commit.as_str(),
    ) {
        return Err(invalid_link("invalid imported derivation event"));
    }
    match stored {
        Some(old) => {
            if !text_equal(old.as_str(), payload) {
                return Err(link_conflict("imported derivation conflict"));
            }
            Ok(false)
        },
        None => Ok(true),
    }
}

/// A stored range must carry its own identity.
pub fn check_stored_range(range: &RangeEvidence) -> (r: Result<(), DbError>)
    ensures
        r is Ok <==> models::valid_range(range@),
        r matches Err(e) ==> store::conflict(e, "stored range hash mismatch"@),
{
    if !range.verify_id() {
        return Err(link_conflict("stored range hash mismatch"));
    }
    Ok(())
}

/// A stored event must carry its own identity.
pub fn check_stored_event(event: &DerivationEvent) -> (r: Result<(), DbError>)
    ensures
        r is Ok <==> event@.event_id == models::event_identity(event@),
        r matches Err(e) ==> store::conflict(e, "stored derivation event hash mismatch"@),
{
    if !event.verify_id() {
        return Err(link_conflict("stored derivation event hash mismatch"));
    }
    Ok(())
}

/// A queued squash target.
pub struct QueuedTarget {
    pub target: String,
    pub parent: String,
    /// Whether it waits to be matched; a commit with several parents does not.
    pub pending: bool,
    pub order: i64,
}

/// The contents of [`QueuedTarget`].
pub open spec fn queued(q: QueuedTarget) -> (Seq<char>, Seq<char>, bool, int) {
    (q.target@, q.parent@, q.pending, q.order as int)
}

/// How many of the first `k` targets the queue does not hold.
pub open spec fn new_targets(known: Seq<bool>, k: nat) -> nat
    decreases k,
{
    if k == 0 {
        0
    } else {
        new_targets(known, (k - 1) as nat) + if known[k - 1] {
            0nat
        } else {
            1nat
        }
    }
}

/// Decides on discovered targets: nothing happens if the cursor moved, and the
/// queue never holds more than its limit of unresolved targets. `known` says of
/// each target whether the queue holds it.
pub fn queue_targets(
    cursor: &Option<String>,
    expected: &Option<String>,
    unresolved: i64,
    known: &Vec<bool>,
    last_order: i64,
    targets: &Vec<Discovered>,
) -> (r: Result<Option<Vec<QueuedTarget>>, DbError>)
    requires
        known@.len() == targets@.len(),
        0 <= unresolved,
        last_order + targets@.len() <= i64::MAX,
    ensures
        ({
            let moved = models::opt_text(*cursor) != models::opt_text(*expected);
            let full = unresolved + new_targets(known@, known@.len()) > MAX_PENDING_SQUASH_TARGETS;
            match r {
                Ok(None) => moved,
                Ok(Some(queue)) => {
                    &&& !moved
                    &&& !full
                    &&& queue@.len() == targets@.len()
                    &&& forall|i: int|
                        0 <= i < targets@.len() ==> queued(#[trigger] queue@[i]) == (
                            targets@[i].target@,
                            targets@[i].parent@,
                            targets@[i].supported,
                            last_order + i + 1,
                        )
                },
                Err(e) => !moved && full && e == (DbError::SquashQueueCapacity {
                    limit: MAX_PENDING_SQUASH_TARGETS,
                }),
            }
        }),
{
    if !opt_text_equal(cursor, expected) {
        return Ok(None);
    }
    let n: usize = targets.len();
    let mut fresh: usize = 0;
    let mut i: usize = 0;
    while i < n
        invariant
            i <= n,
            n == known@.len(),
            fresh <= i,
            fresh == new_targets(known@, i as nat),
        decreases n - i,
    {
        if !known[i] {
            fresh += 1;
        }
        i += 1;
    }
    if unresolved as u128 + fresh as u128 > MAX_PENDING_SQUASH_TARGETS as u128 {
        return Err(DbError::SquashQueueCapacity { limit: MAX_PENDING_SQUASH_TARGETS });
    }
    let mut queue: Vec<QueuedTarget> = Vec::new();
    let mut order: i64 = last_order;
    let mut k: usize = 0;
    while k < n
        invariant
            k <= n,
            n == targets@.len(),
            queue@.len() == k,
            last_order + n <= i64::MAX,
            order == last_order + k,
            forall|i: int|
                0 <= i < k ==> queued(#[trigger] queue@[i]) == (
                    targets@[i].target@,
                    targets@[i].parent@,
                    targets@[i].supported,
                    last_order + i + 1,
                ),
        decreases n - k,
    {
        order += 1;
        let found = &targets[k];
        queue.push(
            QueuedTarget {
                target: found.target.clone(),
                parent: found.parent.clone(),
                pending: found.supported,
                order,
            },
        );
        k += 1;
    }
    Ok(Some(queue))
}

/// Authority rows are ordered by remote, then by source.
pub open spec fn authorization_lt(a: AuthorizationModel, b: AuthorizationModel) -> bool {
    if a.remote_fingerprint != b.remote_fingerprint {
        order::text_lt(a.remote_fingerprint, b.remote_fingerprint)
    } else {
        order::text_lt(a.source_event_id, b.source_event_id)
    }
}

/// `x` put into the ascending list `s`, unless `s` holds it.
pub open spec fn authorization_insert(s: Seq<AuthorizationModel>, x: AuthorizationModel) -> Seq<
    AuthorizationModel,
>
    decreases s.len(),
{
    if s.len() == 0 {
        seq![x]
    } else if s.last() == x {
        s
    } else if authorization_lt(s.last(), x) {
        s.push(x)
    } else {
        authorization_insert(s.drop_last(), x).push(s.last())
    }
}

/// Authority rows in ascending order, each once.
pub open spec fn ordered_authorizations(s: Seq<AuthorizationModel>) -> Seq<AuthorizationModel>
    decreases s.len(),
{
    if s.len() == 0 {
        Seq::empty()
    } else {
        authorization_insert(ordered_authorizations(s.drop_last()), s.last())
    }
}

fn insert_authorization(list: &mut Vec<SourceAuthorizationRow>, x: SourceAuthorizationRow)
    ensures
        models::authorization_models(final(list)@) == authorization_insert(
            models::authorization_models(old(list)@),
            x@,
        ),
{
    let ghost s = models::authorization_models(list@);
    let n: usize = list.len();
    let mut k: usize = n;
    proof {
        assert(s.take(n as int) =~= s);
        assert(authorization_insert(s, x@) =~= authorization_insert(s.take(n as int), x@) + s.skip(
            n as int,
        ));
    }
    while k > 0
        invariant
            k <= n,
            n == list@.len(),
            s == models::authorization_models(list@),
            s.len() == n,
            authorization_insert(s, x@) == authorization_insert(s.take(k as int), x@) + s.skip(
                k as int,
            ),
        ensures
            k <= n,
            k == 0 || (s[k - 1] != x@ && authorization_lt(s[k - 1], x@)),
            authorization_insert(s, x@) == authorization_insert(s.take(k as int), x@) + s.skip(
                k as int,
            ),
        decreases k,
    {
        let ghost t = s.take(k as int);
        assert(t.last() == s[k - 1]);
        assert(s[k - 1] == list@[k - 1]@);
        let row = &list[k - 1];
        if row.same(&x) {
            proof {
                assert(authorization_insert(s, x@) =~= s);
            }
            return ;
        }
        let before = if text_equal(
            row.remote_fingerprint.as_str(),
            x.remote_fingerprint.as_str(),
        ) {
            text_less(row.source_event_id.as_str(), x.source_event_id.as_str())
        } else {
            text_less(row.remote_fingerprint.as_str(), x.remote_fingerprint.as_str())
        };
        if before {
            break;
        }
        proof {
            assert(t.drop_last() =~= s.take(k - 1));
            assert(authorization_insert(t, x@) + s.skip(k as int) =~= authorization_insert(
                s.take(k - 1),
                x@,
            ) + s.skip(k - 1));
        }
        k -= 1;
    }
    let ghost made = x@;
    proof {
        let t = s.take(k as int);
        if k > 0 {
            assert(t.last() == s[k - 1]);
        }
        assert(authorization_insert(t, made) =~= t.push(made));
    }
    list.insert(k, x);
    proof {
        assert(models::authorization_models(list@) =~= s.take(k as int).push(made) + s.skip(
            k as int,
        ));
    }
}

/// Puts authority rows in ascending order, each once.
pub fn order_authorizations(rows: &Vec<SourceAuthorizationRow>) -> (r: Vec<SourceAuthorizationRow>)
    ensures
        models::authorization_models(r@) == ordered_authorizations(
            models::authorization_models(rows@),
        ),
{
    let ghost s = models::authorization_models(rows@);
    let n: usize = rows.len();
    let mut out: Vec<SourceAuthorizationRow> = Vec::new();
    let mut i: usize = 0;
    assert(s.take(0) =~= Seq::<AuthorizationModel>::empty());
    assert(models::authorization_models(out@) =~= ordered_authorizations(s.take(0)));
    while i < n
        invariant
            i <= n,
            n == rows@.len(),
            s == models::authorization_models(rows@),
            models::authorization_models(out@) == ordered_authorizations(s.take(i as int)),
        decreases n - i,
    {
        proof {
            assert(s.take(i + 1).drop_last() =~= s.take(i as int));
            assert(s.take(i + 1).last() == rows@[i as int]@);
        }
        insert_authorization(&mut out, rows[i].clone());
        i += 1;
    }
    assert(s.take(n as int) =~= s);
    out
}

/// A missing text comes before every other.
pub open spec fn opt_text_lt(a: Option<Seq<char>>, b: Option<Seq<char>>) -> bool {
    match (a, b) {
        (None, Some(_)) => true,
        (Some(x), Some(y)) => order::text_lt(x, y),
        _ => false,
    }
}

/// Observations are ordered by fingerprint, key, origin and trust.
pub open spec fn observation_lt(a: ObservationModel, b: ObservationModel) -> bool {
    if a.source_fingerprint != b.source_fingerprint {
        opt_text_lt(a.source_fingerprint, b.source_fingerprint)
    } else if a.source_key != b.source_key {
        order::text_lt(a.source_key, b.source_key)
    } else if a.origin != b.origin {
        order::text_lt(a.origin, b.origin)
    } else {
        !a.trusted_local && b.trusted_local
    }
}

/// `x` put into the ascending list `s`, unless `s` holds it.
pub open spec fn observation_insert(s: Seq<ObservationModel>, x: ObservationModel) -> Seq<
    ObservationModel,
>
    decreases s.len(),
{
    if s.len() == 0 {
        seq![x]
    } else if s.last() == x {
        s
    } else if observation_lt(s.last(), x) {
        s.push(x)
    } else {
        observation_insert(s.drop_last(), x).push(s.last())
    }
}

/// Observations in ascending order, each once.
pub open spec fn ordered_observations(s: Seq<ObservationModel>) -> Seq<ObservationModel>
    decreases s.len(),
{
    if s.len() == 0 {
        Seq::empty()
    } else {
        observation_insert(ordered_observations(s.drop_last()), s.last())
    }
}

fn opt_text_less(a: &Option<String>, b: &Option<String>) -> (r: bool)
    ensures
        r == opt_text_lt(models::opt_text(*a), models::opt_text(*b)),
{
    match (a, b) {
        (None, Some(_)) => true,
        (Some(x), Some(y)) => text_less(x.as_str(), y.as_str()),
        _ => false,
    }
}

fn observation_less(a: &SourceObservationRow, b: &SourceObservationRow) -> (r: bool)
    ensures
        r == observation_lt(a@, b@),
{
    if !opt_text_equal(&a.source_fingerprint, &b.source_fingerprint) {
        opt_text_less(&a.source_fingerprint, &b.source_fingerprint)
    } else if !text_equal(a.source_key.as_str(), b.source_key.as_str()) {
        text_less(a.source_key.as_str(), b.source_key.as_str())
    } else if !text_equal(a.origin.as_str(), b.origin.as_str()) {
        text_less(a.origin.as_str(), b.origin.as_str())
    } else {
        !a.trusted_local && b.trusted_local
    }
}

fn insert_observation(list: &mut Vec<SourceObservationRow>, x: SourceObservationRow)
    ensures
        models::observation_models(final(list)@) == observation_insert(
            models::observation_models(old(list)@),
            x@,
        ),
{
    let ghost s = models::observation_models(list@);
    let n: usize = list.len();
    let mut k: usize = n;
    proof {
        assert(s.take(n as int) =~= s);
        assert(observation_insert(s, x@) =~= observation_insert(s.take(n as int), x@) + s.skip(
            n as int,
        ));
    }
    while k > 0
        invariant
            k <= n,
            n == list@.len(),
            s == models::observation_models(list@),
            s.len() == n,
            observation_insert(s, x@) == observation_insert(s.take(k as int), x@) + s.skip(
                k as int,
            ),
        ensures
            k <= n,
            k == 0 || (s[k - 1] != x@ && observation_lt(s[k - 1], x@)),
            observation_insert(s, x@) == observation_insert(s.take(k as int), x@) + s.skip(
                k as int,
            ),
        decreases k,
    {
        let ghost t = s.take(k as int);
        assert(t.last() == s[k - 1]);
        assert(s[k - 1] == list@[k - 1]@);
        if list[k - 1].same(&x) {
            proof {
                assert(observation_insert(s, x@) =~= s);
            }
            return ;
        }
        if observation_less(&list[k - 1], &x) {
            break;
        }
        proof {
            assert(t.drop_last() =~= s.take(k - 1));
            assert(observation_insert(t, x@) + s.skip(k as int) =~= observation_insert(
                s.take(k - 1),
                x@,
            ) + s.skip(k - 1));
        }
        k -= 1;
    }
    let ghost made = x@;
    proof {
        let t = s.take(k as int);
        if k > 0 {
            assert(t.last() == s[k - 1]);
        }
        assert(observation_insert(t, made) =~= t.push(made));
    }
    list.insert(k, x);
    proof {
        assert(models::observation_models(list@) =~= s.take(k as int).push(made) + s.skip(k as int));
    }
}

/// Puts observations in ascending order, each once.
pub fn order_observations(rows: &Vec<SourceObservationRow>) -> (r: Vec<SourceObservationRow>)
    ensures
        models::observation_models(r@) == ordered_observations(models::observation_models(rows@)),
{
    let ghost s = models::observation_models(rows@);
    let n: usize = rows.len();
    let mut out: Vec<SourceObservationRow> = Vec::new();
    let mut i: usize = 0;
    assert(s.take(0) =~= Seq::<ObservationModel>::empty());
    assert(models::observation_models(out@) =~= ordered_observations(s.take(0)));
    while i < n
        invariant
            i <= n,
            n == rows@.len(),
            s == models::observation_models(rows@),
            models::observation_models(out@) == ordered_observations(s.take(i as int)),
        decreases n - i,
    {
        proof {
            assert(s.take(i + 1).drop_last() =~= s.take(i as int));
            assert(s.take(i + 1).last() == rows@[i as int]@);
        }
        insert_observation(&mut out, rows[i].clone());
        i += 1;
    }
    assert(s.take(n as int) =~= s);
    out
}

/// The snapshot of a stored event: its payload with a digest, and its trusted
/// observations and authority rows in canonical order.
pub fn event_snapshot(
    event_id: &str,
    payload: &str,
    observations: &Vec<SourceObservationRow>,
    authorizations: &Vec<SourceAuthorizationRow>,
) -> (r: SourceSnapshot)
    ensures
        r@ == (SnapshotModel::Event {
            event_id: event_id@,
            canonical_payload: payload@,
            canonical_payload_digest: digest::digest_text(vstd::utf8::encode_utf8(payload@)),
            trusted_local_observations: ordered_observations(
                models::observation_models(observations@),
            ),
            authorization_rows: ordered_authorizations(
                models::authorization_models(authorizations@),
            ),
        }),
{
    SourceSnapshot::Event {
        event_id: event_id.to_owned(),
        canonical_payload: payload.to_owned(),
        canonical_payload_digest: hex_digest(payload.as_bytes()),
        trusted_local_observations: order_observations(observations),
        authorization_rows: order_authorizations(authorizations),
    }
}

/// The authority rows that a direct link has from the remotes its interaction is
/// shared with.
pub open spec fn link_authorizations(
    id: Seq<char>,
    commit: Seq<char>,
    remotes: Seq<Seq<char>>,
) -> Seq<AuthorizationModel> {
    remotes.map_values(
        |remote: Seq<char>|
            AuthorizationModel {
                remote_fingerprint: remote,
                source_event_id: derivation::legacy_text(id, commit),
            },
    )
}

/// The snapshot of a direct link, if this repository observed it and its
/// interaction is alive.
pub fn link_snapshot(
    interaction: &str,
    commit: &str,
    link: &StoredLink,
    remotes: &Vec<String>,
    trusted: bool,
    alive: bool,
) -> (r: Option<SourceSnapshot>)
    ensures
        match r {
            Some(s) => trusted && alive && s@ == (SnapshotModel::Legacy {
                interaction: interaction@,
                commit: commit@,
                link_type: link.link_type@,
                linked_by: models::opt_text(link.linked_by),
                authorization_rows: ordered_authorizations(
                    link_authorizations(interaction@, commit@, remotes.deep_view()),
                ),
            }),
            None => !trusted || !alive,
        },
{
    if !trusted || !alive {
        return None;
    }
    let ghost names = remotes.deep_view();
    let ghost wanted = link_authorizations(interaction@, commit@, names);
    let n: usize = remotes.len();
    let mut rows: Vec<SourceAuthorizationRow> = Vec::new();
    let mut i: usize = 0;
    assert(models::authorization_models(rows@) =~= wanted.take(0));
    while i < n
        invariant
            i <= n,
            n == remotes@.len(),
            names == remotes.deep_view(),
            wanted == link_authorizations(interaction@, commit@, names),
            models::authorization_models(rows@) == wanted.take(i as int),
        decreases n - i,
    {
        let ghost held = models::authorization_models(rows@);
        let mut key = glue3("legacy:", interaction, ":");
        key.append(commit);
        let row = SourceAuthorizationRow {
            remote_fingerprint: remotes[i].clone(),
            source_event_id: key,
        };
        assert(names[i as int] == remotes@[i as int]@);
        assert(row@ == wanted[i as int]);
        rows.push(row);
        assert(models::authorization_models(rows@) =~= held.push(wanted[i as int]));
        i += 1;
        assert(models::authorization_models(rows@) =~= wanted.take(i as int));
    }
    assert(wanted.take(n as int) =~= wanted);
    Some(
        SourceSnapshot::Legacy {
            interaction: interaction.to_owned(),
            commit: commit.to_owned(),
            link_type: link.link_type.clone(),
            linked_by: copy_opt_text(&link.linked_by),
            authorization_rows: order_authorizations(&rows),
        },
    )
}

/// Whether the snapshot of an event can be a source: only an event that this
/// repository observed can.
pub fn is_trusted_snapshot(snapshot: &SourceSnapshot) -> (r: bool)
    ensures
        r == (snapshot@ matches SnapshotModel::Event { trusted_local_observations, .. }
            && trusted_local_observations.len() > 0),
{
    match snapshot {
        SourceSnapshot::Event { trusted_local_observations, .. } => {
            let ghost seen = models::observation_models(trusted_local_observations@);
            assert(seen.len() == trusted_local_observations@.len());
            trusted_local_observations.len() > 0
        },
        SourceSnapshot::Legacy { .. } => false,
    }
}

} // verus!
