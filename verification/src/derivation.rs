//! The grammar of derivation events, the graph they form, and what of it
//! survives when interactions are suppressed.

use crate::digest;
use crate::digest::{any_hex, lower_hex};
use crate::fault::SyncError;
use crate::graph;
use crate::graph::arrange;
use crate::models;
use crate::models::{
    DerivationEvent, DerivationOrigin, DerivationRelation, EventModel, EvidenceKind,
    InteractionId, format_uuid, parse_uuid,
};
use crate::order;
use crate::text;
use crate::text::{bytes_len, chars_of, ends_with, glue, glue3, starts_with, text_equal, text_of};
use vstd::hash_map::StringHashMap;
use vstd::hash_set::StringHashSet;
use vstd::prelude::*;
use vstd::string::*;

verus! {

/// A text that is the canonical notation of a UUID.
pub open spec fn is_canonical_id(s: Seq<char>) -> bool {
    match models::parsed_uuid(s) {
        Some(v) => models::uuid_text(v) == s,
        None => false,
    }
}

/// Whether a text is the canonical notation of a UUID.
pub fn canonical_id_text(s: &str) -> (r: bool)
    ensures
        r == is_canonical_id(s@),
{
    match parse_uuid(s) {
        Ok(v) => text_equal(format_uuid(v).as_str(), s),
        Err(_) => false,
    }
}

/// A forty-digit lower-case commit name.
pub open spec fn is_commit_sha(s: Seq<char>) -> bool {
    digest::is_lower_hex(s, 40)
}

/// Whether a text is a commit name that names one SHA-1 object.
pub fn is_safe_commit_sha(value: &str) -> (r: bool)
    ensures
        r == is_commit_sha(value@),
{
    lower_hex(value, 40)
}

/// A link type that the linker assigns by itself.
pub open spec fn automatic_link_type(s: Seq<char>) -> bool {
    s == "generated"@ || s == "temporal"@
}

/// Whether the linker assigns this link type by itself.
pub fn is_automatic_link_type(value: &str) -> (r: bool)
    ensures
        r == automatic_link_type(value@),
{
    text_equal(value, "generated") || text_equal(value, "temporal")
}

/// A source that names an event by its identity.
pub open spec fn event_source(s: Seq<char>) -> bool {
    digest::is_lower_hex(s, 64)
}

/// Whether a source names an event by its identity.
pub fn is_event_source(source: &str) -> (r: bool)
    ensures
        r == event_source(source@),
{
    lower_hex(source, 64)
}

/// The source text for the direct link of an interaction to a commit.
pub open spec fn legacy_text(interaction: Seq<char>, commit: Seq<char>) -> Seq<char> {
    "legacy:"@ + interaction + ":"@ + commit
}

/// The interaction and the commit that a source names directly.
pub open spec fn legacy_source(s: Seq<char>) -> Option<(Seq<char>, Seq<char>)> {
    let interaction = s.subrange(7, 43);
    let commit = s.subrange(44, 84);
    if s.len() == 84 && s.take(7) == "legacy:"@ && s[43] == ':' && is_canonical_id(interaction)
        && is_commit_sha(commit) {
        Some((interaction, commit))
    } else {
        None
    }
}

/// The canonical text of a UUID has thirty-six characters.
pub proof fn lemma_uuid_text_len(v: u128)
    ensures
        models::uuid_text(v).len() == 36,
{
}

/// A source text reads back as the interaction and the commit it was made of.
pub proof fn lemma_legacy_text(interaction: Seq<char>, commit: Seq<char>)
    requires
        is_canonical_id(interaction),
        is_commit_sha(commit),
    ensures
        legacy_source(legacy_text(interaction, commit)) == Some((interaction, commit)),
{
    reveal_strlit("legacy:");
    reveal_strlit(":");
    let s = legacy_text(interaction, commit);
    lemma_uuid_text_len(models::parsed_uuid(interaction)->0);
    assert(s.subrange(7, 43) =~= interaction);
    assert(s.subrange(44, 84) =~= commit);
    assert(s.take(7) =~= "legacy:"@);
}

/// A source that reads as a direct link is the text of that link.
pub proof fn law_legacy_source_is_its_text(s: Seq<char>)
    requires
        legacy_source(s) is Some,
    ensures
        s == legacy_text((legacy_source(s)->0).0, (legacy_source(s)->0).1),
{
    reveal_strlit("legacy:");
    reveal_strlit(":");
    let (interaction, commit) = legacy_source(s)->0;
    assert(s =~= legacy_text(interaction, commit));
}

/// The interaction and the commit that a source names directly.
pub fn parse_legacy_source(source: &str) -> (r: Option<(String, String)>)
    ensures
        match r {
            Some((i, c)) => legacy_source(source@) == Some((i@, c@)),
            None => legacy_source(source@) is None,
        },
{
    let s = chars_of(source);
    if s.len() != 84 {
        return None;
    }
    let head = text_of(s.as_slice(), 0, 7);
    assert(head@ =~= source@.take(7));
    if !text_equal(head.as_str(), "legacy:") || s[43] != ':' {
        return None;
    }
    let interaction = text_of(s.as_slice(), 7, 43);
    let commit = text_of(s.as_slice(), 44, 84);
    if !canonical_id_text(interaction.as_str()) || !is_safe_commit_sha(commit.as_str()) {
        return None;
    }
    Some((interaction, commit))
}

/// The source text for the direct link of an interaction to a commit.
pub fn source_id(interaction: &InteractionId, commit: &str) -> (r: String)
    ensures
        r@ == legacy_text(interaction.text(), commit@),
        is_commit_sha(commit@) ==> legacy_source(r@) == Some((interaction.text(), commit@)),
{
    let id = interaction.as_str();
    let mut r = glue3("legacy:", id.as_str(), ":");
    r.append(commit);
    proof {
        if is_commit_sha(commit@) {
            lemma_legacy_text(id@, commit@);
        }
    }
    r
}

/// The source texts of direct links, given as pairs of interaction and commit.
pub open spec fn pair_sources(pairs: Seq<(String, String)>, k: nat) -> Set<Seq<char>>
    decreases k,
{
    if k == 0 {
        Set::empty()
    } else {
        pair_sources(pairs, (k - 1) as nat).insert(
            legacy_text(pairs[k - 1].0@, pairs[k - 1].1@),
        )
    }
}

/// Collects the source texts of direct links.
pub fn link_sources(pairs: &Vec<(String, String)>) -> (r: StringHashSet)
    ensures
        r@ == pair_sources(pairs@, pairs@.len()),
{
    let n: usize = pairs.len();
    let mut out = StringHashSet::new();
    let mut i: usize = 0;
    while i < n
        invariant
            i <= n,
            n == pairs@.len(),
            out@ == pair_sources(pairs@, i as nat),
        decreases n - i,
    {
        let mut text = glue3("legacy:", pairs[i].0.as_str(), ":");
        text.append(pairs[i].1.as_str());
        out.insert(text);
        i += 1;
    }
    out
}

/// Attribution that can be exchanged: not empty, at most one mebibyte.
pub open spec fn valid_attribution(linked_by: Option<Seq<char>>) -> bool {
    match linked_by {
        Some(s) => s.len() > 0 && text::byte_len(s) <= 1048576,
        None => true,
    }
}

/// Whether attribution can be exchanged.
pub fn attribution_ok(linked_by: &Option<String>) -> (r: bool)
    ensures
        r == valid_attribution(models::opt_text(*linked_by)),
{
    match linked_by {
        Some(s) => {
            let empty = s.as_str().is_empty();
            !empty && bytes_len(s.as_str()) <= 1048576
        },
        None => true,
    }
}

/// A source in one of the two notations.
pub open spec fn valid_source(s: Seq<char>) -> bool {
    text::byte_len(s) <= 512 && (legacy_source(s) is Some || event_source(s))
}

/// What the relation of an event demands of its other fields.
pub open spec fn valid_shape(e: EventModel) -> bool {
    match e.relation {
        DerivationRelation::RewriteExact => {
            &&& e.sources.len() > 0
            &&& e.old_oid matches Some(x) && is_commit_sha(x)
            &&& e.new_oid == Some(e.target_commit)
            &&& e.range_id is None
            &&& e.evidence.kind == EvidenceKind::LocallyObserved
            &&& e.origin == DerivationOrigin::LocalHook
        },
        DerivationRelation::SquashExact => {
            &&& e.sources.len() > 0
            &&& e.old_oid is None
            &&& e.new_oid is None
            &&& e.range_id matches Some(x) && digest::is_lower_hex(x, 64)
            &&& e.evidence.kind == EvidenceKind::LocallyObserved
            &&& e.origin == DerivationOrigin::LocalHook
        },
        _ => e.old_oid is None && e.new_oid is None && e.range_id is None,
    }
}

/// An event that may be exchanged.
pub open spec fn valid_event(e: EventModel) -> bool {
    &&& e.event_id == models::event_identity(e)
    &&& order::strictly_sorted(e.sources)
    &&& digest::is_hex(e.event_id, 64)
    &&& is_commit_sha(e.target_commit)
    &&& e.evidence.version == 1
    &&& valid_attribution(e.linked_by)
    &&& forall|j: int| 0 <= j < e.sources.len() ==> valid_source(#[trigger] e.sources[j])
    &&& valid_shape(e)
}

/// Whether an event may be exchanged.
pub fn validate_derivation_event(event: &DerivationEvent) -> (r: bool)
    ensures
        r == valid_event(event@),
{
    if !event.verify_id() || !event.sources_are_canonical() || !any_hex(
        event.event_id.as_str(),
        64,
    ) || !is_safe_commit_sha(event.target_commit.as_str()) || event.evidence.version != 1
        || !attribution_ok(&event.linked_by) {
        return false;
    }
    let ghost s = event@.sources;
    let mut j: usize = 0;
    while j < event.source_event_ids.len()
        invariant
            j <= event.source_event_ids.len(),
            s == event@.sources,
            s == event.source_event_ids.deep_view(),
            forall|k: int| 0 <= k < j ==> valid_source(#[trigger] s[k]),
        decreases event.source_event_ids.len() - j,
    {
        let source = event.source_event_ids[j].as_str();
        assert(s[j as int] == source@);
        if bytes_len(source) > 512 || (parse_legacy_source(source).is_none() && !is_event_source(
            source,
        )) {
            assert(!valid_source(event@.sources[j as int]));
            return false;
        }
        j += 1;
    }
    let has_sources = event.source_event_ids.len() > 0;
    let local = event.evidence.kind == EvidenceKind::LocallyObserved && event.origin
        == DerivationOrigin::LocalHook;
    match event.relation {
        DerivationRelation::RewriteExact => {
            let old_ok = match &event.old_oid {
                Some(x) => is_safe_commit_sha(x.as_str()),
                None => false,
            };
            let new_ok = match &event.new_oid {
                Some(x) => text_equal(x.as_str(), event.target_commit.as_str()),
                None => false,
            };
            has_sources && old_ok && new_ok && event.range_id.is_none() && local
        },
        DerivationRelation::SquashExact => {
            let range_ok = match &event.range_id {
                Some(x) => lower_hex(x.as_str(), 64),
                None => false,
            };
            has_sources && event.old_oid.is_none() && event.new_oid.is_none() && range_ok && local
        },
        _ => event.old_oid.is_none() && event.new_oid.is_none() && event.range_id.is_none(),
    }
}

/// The contents of a list of events.
pub open spec fn models(events: Seq<DerivationEvent>) -> Seq<EventModel> {
    events.map_values(|e: DerivationEvent| e@)
}

/// A source that names a suppressed interaction.
pub open spec fn refers_to(source: Seq<char>, id: InteractionId, endpoints: bool) -> bool {
    ||| text::has_prefix(source, "legacy:"@ + id.text() + ":"@)
    ||| endpoints && text::has_prefix(source, "endpoint:"@) && text::has_suffix(source, ":"@ + id.text())
}

/// An event of a suppressed interaction, or one that names such an interaction
/// among its sources.
pub open spec fn directly_suppressed(
    e: EventModel,
    ids: Seq<InteractionId>,
    endpoints: bool,
) -> bool {
    ||| ids.contains(e.interaction_id)
    ||| exists|j: int, k: int|
        0 <= j < e.sources.len() && 0 <= k < ids.len() && refers_to(
            #[trigger] e.sources[j],
            #[trigger] ids[k],
            endpoints,
        )
}

/// An event one of whose sources is in the set.
pub open spec fn draws_on(e: EventModel, set: Set<Seq<char>>) -> bool {
    exists|j: int| 0 <= j < e.sources.len() && set.contains(#[trigger] e.sources[j])
}

/// The set holds every directly suppressed event and every event that draws on
/// one in the set.
pub open spec fn suppression_closed(
    set: Set<Seq<char>>,
    events: Seq<EventModel>,
    ids: Seq<InteractionId>,
    endpoints: bool,
) -> bool {
    forall|k: int|
        0 <= k < events.len() && (directly_suppressed(#[trigger] events[k], ids, endpoints)
            || draws_on(events[k], set)) ==> set.contains(events[k].event_id)
}

/// An event identity that falls with the suppressed interactions: it is in
/// every set that is closed under suppression.
pub open spec fn falls(
    x: Seq<char>,
    events: Seq<EventModel>,
    ids: Seq<InteractionId>,
    endpoints: bool,
) -> bool {
    forall|set: Set<Seq<char>>| #[trigger]
        suppression_closed(set, events, ids, endpoints) ==> set.contains(x)
}

/// The events that survive, in their order.
pub open spec fn survivors(
    events: Seq<EventModel>,
    ids: Seq<InteractionId>,
    endpoints: bool,
) -> Seq<EventModel> {
    events.filter(|e: EventModel| !falls(e.event_id, events, ids, endpoints))
}

/// Whether the list holds the identifier.
pub fn id_listed(ids: &Vec<InteractionId>, id: &InteractionId) -> (r: bool)
    ensures
        r == ids@.contains(*id),
{
    let mut k: usize = 0;
    while k < ids.len()
        invariant
            k <= ids.len(),
            forall|i: int| 0 <= i < k ==> ids@[i] != *id,
        decreases ids.len() - k,
    {
        if ids[k] == *id {
            return true;
        }
        k += 1;
    }
    false
}

/// Whether a source names a suppressed interaction.
pub fn source_refers(source: &str, id: &InteractionId, endpoints: bool) -> (r: bool)
    ensures
        r == refers_to(source@, *id, endpoints),
{
    let text = id.as_str();
    let legacy = glue3("legacy:", text.as_str(), ":");
    if starts_with(source, legacy.as_str()) {
        return true;
    }
    endpoints && starts_with(source, "endpoint:") && ends_with(
        source,
        glue(":", text.as_str()).as_str(),
    )
}

fn is_directly_suppressed(event: &DerivationEvent, ids: &Vec<InteractionId>, endpoints: bool) -> (r:
    bool)
    ensures
        r == directly_suppressed(event@, ids@, endpoints),
{
    if id_listed(ids, &event.interaction_id) {
        return true;
    }
    let ghost s = event@.sources;
    let mut j: usize = 0;
    while j < event.source_event_ids.len()
        invariant
            j <= event.source_event_ids.len(),
            s == event@.sources,
            s == event.source_event_ids.deep_view(),
            forall|a: int, k: int|
                0 <= a < j && 0 <= k < ids@.len() ==> !refers_to(
                    #[trigger] s[a],
                    #[trigger] ids@[k],
                    endpoints,
                ),
        decreases event.source_event_ids.len() - j,
    {
        assert(s[j as int] == event.source_event_ids@[j as int]@);
        let mut k: usize = 0;
        while k < ids.len()
            invariant
                k <= ids.len(),
                j < event.source_event_ids.len(),
                s == event@.sources,
                s[j as int] == event.source_event_ids@[j as int]@,
                forall|b: int|
                    0 <= b < k ==> !refers_to(s[j as int], #[trigger] ids@[b], endpoints),
            decreases ids.len() - k,
        {
            if source_refers(event.source_event_ids[j].as_str(), &ids[k], endpoints) {
                assert(refers_to(event@.sources[j as int], ids@[k as int], endpoints));
                return true;
            }
            k += 1;
        }
        j += 1;
    }
    false
}

fn event_draws_on(event: &DerivationEvent, set: &StringHashSet) -> (r: bool)
    ensures
        r == draws_on(event@, set@),
{
    let ghost s = event@.sources;
    let mut j: usize = 0;
    while j < event.source_event_ids.len()
        invariant
            j <= event.source_event_ids.len(),
            s == event@.sources,
            s == event.source_event_ids.deep_view(),
            forall|a: int| 0 <= a < j ==> !set@.contains(#[trigger] s[a]),
        decreases event.source_event_ids.len() - j,
    {
        assert(s[j as int] == event.source_event_ids@[j as int]@);
        if set.contains(event.source_event_ids[j].as_str()) {
            assert(set@.contains(event@.sources[j as int]));
            return true;
        }
        j += 1;
    }
    false
}

/// The identities of a list of events.
pub open spec fn event_ids(events: Seq<EventModel>) -> Seq<Seq<char>> {
    events.map_values(|e: EventModel| e.event_id)
}

/// The identities of the events that fall with the suppressed interactions.
pub fn suppressed_events(events: &Vec<DerivationEvent>, ids: &Vec<InteractionId>, endpoints: bool) -> (r:
    StringHashSet)
    ensures
        suppression_closed(r@, models(events@), ids@, endpoints),
        forall|x: Seq<char>| #[trigger]
            r@.contains(x) <==> falls(x, models(events@), ids@, endpoints),
{
    let ghost ms = models(events@);
    let ghost universe = event_ids(ms).to_set();
    let mut removed = StringHashSet::new();
    let mut i: usize = 0;
    while i < events.len()
        invariant
            i <= events.len(),
            ms == models(events@),
            universe == event_ids(ms).to_set(),
            removed@.finite(),
            removed@.subset_of(universe),
            forall|x: Seq<char>| #[trigger]
                removed@.contains(x) ==> falls(x, ms, ids@, endpoints),
            forall|k: int|
                0 <= k < i && directly_suppressed(#[trigger] ms[k], ids@, endpoints)
                    ==> removed@.contains(ms[k].event_id),
        decreases events.len() - i,
    {
        assert(ms[i as int] == events@[i as int]@);
        if is_directly_suppressed(&events[i], ids, endpoints) {
            proof {
                assert(event_ids(ms)[i as int] == ms[i as int].event_id);
                assert(event_ids(ms).contains(ms[i as int].event_id));
                assert(falls(ms[i as int].event_id, ms, ids@, endpoints)) by {
                    assert forall|set: Set<Seq<char>>| #[trigger]
                        suppression_closed(set, ms, ids@, endpoints) implies set.contains(
                        ms[i as int].event_id,
                    ) by {}
                }
            }
            removed.insert(events[i].event_id.clone());
        }
        i += 1;
    }
    let mut changed = true;
    while changed
        invariant
            ms == models(events@),
            universe == event_ids(ms).to_set(),
            universe.finite(),
            removed@.finite(),
            removed@.subset_of(universe),
            forall|x: Seq<char>| #[trigger]
                removed@.contains(x) ==> falls(x, ms, ids@, endpoints),
            forall|k: int|
                0 <= k < ms.len() && directly_suppressed(#[trigger] ms[k], ids@, endpoints)
                    ==> removed@.contains(ms[k].event_id),
            !changed ==> forall|k: int|
                0 <= k < ms.len() && draws_on(#[trigger] ms[k], removed@) ==> removed@.contains(
                    ms[k].event_id,
                ),
        decreases universe.len() - removed@.len() + (if changed {
                1int
            } else {
                0int
            }),
    {
        changed = false;
        let ghost held = removed@.len();
        let mut i: usize = 0;
        while i < events.len()
            invariant
                i <= events.len(),
                ms == models(events@),
                universe == event_ids(ms).to_set(),
                universe.finite(),
                removed@.finite(),
                removed@.subset_of(universe),
                removed@.len() >= held,
                changed ==> removed@.len() > held,
                forall|x: Seq<char>| #[trigger]
                    removed@.contains(x) ==> falls(x, ms, ids@, endpoints),
                forall|k: int|
                    0 <= k < ms.len() && directly_suppressed(#[trigger] ms[k], ids@, endpoints)
                        ==> removed@.contains(ms[k].event_id),
                !changed ==> forall|k: int|
                    0 <= k < i && draws_on(#[trigger] ms[k], removed@) ==> removed@.contains(
                        ms[k].event_id,
                    ),
            decreases events.len() - i,
        {
            assert(ms[i as int] == events@[i as int]@);
            if event_draws_on(&events[i], &removed) && !removed.contains(
                events[i].event_id.as_str(),
            ) {
                proof {
                    let x = ms[i as int].event_id;
                    assert(event_ids(ms)[i as int] == x);
                    assert(event_ids(ms).contains(x));
                    assert(falls(x, ms, ids@, endpoints)) by {
                        assert forall|set: Set<Seq<char>>| #[trigger]
                            suppression_closed(set, ms, ids@, endpoints) implies set.contains(
                            x,
                        ) by {
                            let j = choose|j: int|
                                0 <= j < ms[i as int].sources.len() && removed@.contains(
                                    #[trigger] ms[i as int].sources[j],
                                );
                            assert(falls(ms[i as int].sources[j], ms, ids@, endpoints));
                            assert(draws_on(ms[i as int], set));
                        }
                    }
                }
                removed.insert(events[i].event_id.clone());
                changed = true;
            }
            i += 1;
        }
        proof {
            vstd::set_lib::lemma_len_subset(removed@, universe);
        }
    }
    proof {
        assert(suppression_closed(removed@, ms, ids@, endpoints));
        assert forall|x: Seq<char>| #[trigger]
            removed@.contains(x) <==> falls(x, ms, ids@, endpoints) by {
            if falls(x, ms, ids@, endpoints) {
                assert(suppression_closed(removed@, ms, ids@, endpoints));
            }
        }
    }
    removed
}

/// The events that survive the suppression of interactions.
pub fn retain_event_closure(
    events: &Vec<DerivationEvent>,
    suppressed: &Vec<InteractionId>,
    endpoints: bool,
) -> (r: Vec<DerivationEvent>)
    ensures
        models(r@) == survivors(models(events@), suppressed@, endpoints),
{
    let removed = suppressed_events(events, suppressed, endpoints);
    let ghost ms = models(events@);
    let ghost keep = |e: EventModel| !falls(e.event_id, ms, suppressed@, endpoints);
    let mut out: Vec<DerivationEvent> = Vec::new();
    let mut i: usize = 0;
    assert(models(out@) =~= ms.take(0).filter(keep)) by {
        reveal(Seq::filter);
    }
    while i < events.len()
        invariant
            i <= events.len(),
            ms == models(events@),
            keep == (|e: EventModel| !falls(e.event_id, ms, suppressed@, endpoints)),
            forall|x: Seq<char>| #[trigger]
                removed@.contains(x) <==> falls(x, ms, suppressed@, endpoints),
            models(out@) == ms.take(i as int).filter(keep),
        decreases events.len() - i,
    {
        proof {
            reveal(Seq::filter);
            assert(ms[i as int] == events@[i as int]@);
            assert(ms.take(i + 1).drop_last() =~= ms.take(i as int));
            assert(ms.take(i + 1).last() == ms[i as int]);
        }
        if !removed.contains(events[i].event_id.as_str()) {
            let ghost old_out = models(out@);
            out.push(events[i].clone());
            assert(models(out@) =~= old_out.push(ms[i as int]));
        }
        i += 1;
    }
    assert(ms.take(ms.len() as int) =~= ms);
    out
}

/// An event of an exact relation.
pub open spec fn is_exact(r: DerivationRelation) -> bool {
    r == DerivationRelation::RewriteExact || r == DerivationRelation::SquashExact
}

/// The first event with this identity, from position `k` on.
pub open spec fn find_event(events: Seq<EventModel>, id: Seq<char>, k: int) -> Option<int>
    decreases events.len() - k,
{
    if k < 0 || k >= events.len() {
        None
    } else if events[k].event_id == id {
        Some(k)
    } else {
        find_event(events, id, k + 1)
    }
}

/// What is wrong with one source of an event.
pub open spec fn source_fault(
    source: Seq<char>,
    e: EventModel,
    events: Seq<EventModel>,
    legacy: Set<Seq<char>>,
) -> Option<SyncError> {
    match legacy_source(source) {
        Some((interaction, commit)) => if interaction != e.interaction_id.text()
            || !legacy.contains(source) {
            Some(SyncError::LegacyUnresolved)
        } else {
            None
        },
        None => if event_source(source) {
            match find_event(events, source, 0) {
                None => Some(SyncError::DanglingSource),
                Some(p) => if events[p].interaction_id != e.interaction_id {
                    Some(SyncError::CrossInteraction)
                } else {
                    None
                },
            }
        } else {
            Some(SyncError::InvalidSourceGrammar)
        },
    }
}

/// What is wrong with the first faulty source from position `j` on.
pub open spec fn sources_fault(
    e: EventModel,
    events: Seq<EventModel>,
    legacy: Set<Seq<char>>,
    j: int,
) -> Option<SyncError>
    decreases e.sources.len() - j,
{
    if j < 0 || j >= e.sources.len() {
        None
    } else {
        match source_fault(e.sources[j], e, events, legacy) {
            Some(f) => Some(f),
            None => sources_fault(e, events, legacy, j + 1),
        }
    }
}

/// What is wrong with the first faulty event from position `k` on.
pub open spec fn events_fault(events: Seq<EventModel>, legacy: Set<Seq<char>>, k: int) -> Option<
    SyncError,
>
    decreases events.len() - k,
{
    if k < 0 || k >= events.len() {
        None
    } else if is_exact(events[k].relation) && events[k].sources.len() == 0 {
        Some(SyncError::ExactWithoutSource)
    } else {
        match sources_fault(events[k], events, legacy, 0) {
            Some(f) => Some(f),
            None => events_fault(events, legacy, k + 1),
        }
    }
}

/// Event `k` has event `p` among its sources.
pub open spec fn derived_from(events: Seq<EventModel>, k: int, p: int) -> bool {
    &&& 0 <= k < events.len()
    &&& 0 <= p < events.len()
    &&& event_source(events[p].event_id)
    &&& events[k].sources.contains(events[p].event_id)
}

/// No event derives from itself, directly or through others.
pub open spec fn events_acyclic(events: Seq<EventModel>) -> bool {
    exists|rank: Seq<nat>| events_ranked(events, rank)
}

/// The rank decreases from every event to its sources.
pub open spec fn events_ranked(events: Seq<EventModel>, rank: Seq<nat>) -> bool {
    &&& rank.len() == events.len()
    &&& forall|k: int, p: int| #[trigger] derived_from(events, k, p) ==> rank[p] < rank[k]
}

/// What is wrong with a derivation graph that has to be closed in itself.
pub open spec fn graph_fault(events: Seq<EventModel>, legacy: Set<Seq<char>>) -> Option<SyncError> {
    if !models::all_distinct(event_ids(events)) {
        Some(SyncError::DuplicateEventId)
    } else {
        match events_fault(events, legacy, 0) {
            Some(f) => Some(f),
            None => if events_acyclic(events) {
                None
            } else {
                Some(SyncError::CyclicGraph)
            },
        }
    }
}

/// Positions by identity.
proof fn lemma_find_event(events: Seq<EventModel>, id: Seq<char>, k: int)
    requires
        0 <= k,
    ensures
        match find_event(events, id, k) {
            Some(p) => k <= p < events.len() && events[p].event_id == id,
            None => forall|p: int| k <= p < events.len() ==> (#[trigger] events[p]).event_id != id,
        },
    decreases events.len() - k,
{
    if k < events.len() && events[k].event_id != id {
        lemma_find_event(events, id, k + 1);
    }
}

/// With distinct identities the first event of an identity is the only one.
proof fn lemma_found_unique(events: Seq<EventModel>, p: int)
    requires
        models::all_distinct(event_ids(events)),
        0 <= p < events.len(),
    ensures
        find_event(events, events[p].event_id, 0) == Some(p),
{
    let id = events[p].event_id;
    lemma_find_event(events, id, 0);
    assert(events[p].event_id == id);
    let q = find_event(events, id, 0)->0;
    if q != p {
        assert(event_ids(events)[q] == id && event_ids(events)[p] == id);
        if q < p {
            assert(event_ids(events)[q] != event_ids(events)[p]);
        } else {
            assert(event_ids(events)[p] != event_ids(events)[q]);
        }
    }
}

/// Positions by identity, or `None` when an identity occurs twice.
fn index_events(events: &Vec<DerivationEvent>) -> (r: Option<StringHashMap<usize>>)
    ensures
        r is Some <==> models::all_distinct(event_ids(models(events@))),
        r matches Some(map) ==> {
            &&& forall|x: Seq<char>| #[trigger]
                map@.contains_key(x) <==> find_event(models(events@), x, 0) is Some
            &&& forall|x: Seq<char>| #[trigger]
                map@.contains_key(x) ==> find_event(models(events@), x, 0) == Some(map@[x] as int)
        },
{
    let ghost ms = models(events@);
    let ghost ids = event_ids(ms);
    let mut map: StringHashMap<usize> = StringHashMap::new();
    let mut i: usize = 0;
    while i < events.len()
        invariant
            i <= events.len(),
            ms == models(events@),
            ids == event_ids(ms),
            models::all_distinct(ids.take(i as int)),
            forall|x: Seq<char>| #[trigger]
                map@.contains_key(x) ==> map@[x] < i && ids[map@[x] as int] == x,
            forall|k: int| 0 <= k < i ==> map@.contains_key(#[trigger] ids[k]),
        decreases events.len() - i,
    {
        assert(ids[i as int] == events@[i as int].event_id@);
        if map.contains_key(events[i].event_id.as_str()) {
            proof {
                let k = map@[ids[i as int]] as int;
                assert(ids[k] == ids[i as int]);
            }
            return None;
        }
        map.insert(events[i].event_id.clone(), i);
        proof {
            let t = ids.take(i + 1);
            assert forall|a: int, b: int| 0 <= a < b < t.len() implies #[trigger] t[a]
                != #[trigger] t[b] by {
                if b < i {
                    assert(ids.take(i as int)[a] != ids.take(i as int)[b]);
                } else {
                    assert(ids[a] == t[a]);
                }
            }
        }
        i += 1;
    }
    proof {
        assert(ids.take(ids.len() as int) =~= ids);
        assert forall|x: Seq<char>| #[trigger]
            map@.contains_key(x) <==> find_event(ms, x, 0) is Some by {
            lemma_find_event(ms, x, 0);
            if map@.contains_key(x) {
                let k = map@[x] as int;
                assert(ms[k].event_id == ids[k]);
            }
            if find_event(ms, x, 0) is Some {
                let p = find_event(ms, x, 0)->0;
                assert(ids[p] == x);
            }
        }
        assert forall|x: Seq<char>| #[trigger] map@.contains_key(x) implies find_event(ms, x, 0)
            == Some(map@[x] as int) by {
            let k = map@[x] as int;
            assert(ms[k].event_id == ids[k]);
            lemma_found_unique(ms, k);
        }
    }
    Some(map)
}

/// The positions of the events that event `k` derives from, or what is wrong
/// with its sources.
fn resolve_sources(
    events: &Vec<DerivationEvent>,
    k: usize,
    by_id: &StringHashMap<usize>,
    legacy: &StringHashSet,
) -> (r: Result<Vec<usize>, SyncError>)
    requires
        k < events@.len(),
        models::all_distinct(event_ids(models(events@))),
        forall|x: Seq<char>| #[trigger]
            by_id@.contains_key(x) <==> find_event(models(events@), x, 0) is Some,
        forall|x: Seq<char>| #[trigger]
            by_id@.contains_key(x) ==> find_event(models(events@), x, 0) == Some(by_id@[x] as int),
    ensures
        match r {
            Ok(parents) => {
                &&& sources_fault(models(events@)[k as int], models(events@), legacy@, 0) is None
                &&& forall|p: int|
                    parents@.contains(#[trigger] (p as usize)) && 0 <= p <= usize::MAX
                        <==> derived_from(models(events@), k as int, p)
                &&& forall|j: int|
                    0 <= j < parents@.len() ==> #[trigger] parents@[j] < events@.len()
            },
            Err(f) => sources_fault(models(events@)[k as int], models(events@), legacy@, 0) == Some(
                f,
            ),
        },
{
    let ghost ms = models(events@);
    let ghost e = ms[k as int];
    assert(e == events@[k as int]@);
    let event = &events[k];
    let id_text = event.interaction_id.as_str();
    let mut parents: Vec<usize> = Vec::new();
    let mut j: usize = 0;
    while j < event.source_event_ids.len()
        invariant
            j <= event.source_event_ids.len(),
            k < events@.len(),
            ms == models(events@),
            e == event@,
            e == ms[k as int],
            id_text@ == e.interaction_id.text(),
            models::all_distinct(event_ids(ms)),
            forall|x: Seq<char>| #[trigger]
                by_id@.contains_key(x) <==> find_event(ms, x, 0) is Some,
            forall|x: Seq<char>| #[trigger]
                by_id@.contains_key(x) ==> find_event(ms, x, 0) == Some(by_id@[x] as int),
            sources_fault(e, ms, legacy@, 0) == sources_fault(e, ms, legacy@, j as int),
            forall|a: int|
                0 <= a < parents@.len() ==> #[trigger] parents@[a] < events@.len() && event_source(
                    ms[parents@[a] as int].event_id,
                ) && e.sources.contains(ms[parents@[a] as int].event_id),
            forall|a: int|
                0 <= a < j && event_source(#[trigger] e.sources[a]) ==> by_id@.contains_key(
                    e.sources[a],
                ) && parents@.contains(by_id@[e.sources[a]]),
        decreases event.source_event_ids.len() - j,
    {
        let source = event.source_event_ids[j].as_str();
        assert(e.sources[j as int] == source@);
        let ghost old_parents = parents@;
        match parse_legacy_source(source) {
            Some((interaction, _commit)) => {
                if !text_equal(interaction.as_str(), id_text.as_str()) || !legacy.contains(source) {
                    return Err(SyncError::LegacyUnresolved);
                }
            },
            None => {
                if !is_event_source(source) {
                    return Err(SyncError::InvalidSourceGrammar);
                }
                match by_id.get(source) {
                    None => {
                        assert(!by_id@.contains_key(source@));
                        return Err(SyncError::DanglingSource);
                    },
                    Some(p) => {
                        let p: usize = *p;
                        proof {
                            assert(by_id@.contains_key(source@));
                            lemma_find_event(ms, source@, 0);
                            assert(ms[p as int] == events@[p as int]@);
                        }
                        if events[p].interaction_id != event.interaction_id {
                            return Err(SyncError::CrossInteraction);
                        }
                        parents.push(p);
                        proof {
                            assert(parents@[old_parents.len() as int] == p);
                        }
                    },
                }
            },
        }
        proof {
            assert forall|a: int|
                0 <= a < j + 1 && event_source(#[trigger] e.sources[a]) implies by_id@.contains_key(
                e.sources[a],
            ) && parents@.contains(by_id@[e.sources[a]]) by {
                if a < j {
                    let b = old_parents.index_of(by_id@[e.sources[a]]);
                    assert(parents@[b] == by_id@[e.sources[a]]);
                } else {
                    assert(legacy_source(source@) is None);
                }
            }
        }
        j += 1;
    }
    proof {
        assert forall|p: int|
            parents@.contains(#[trigger] (p as usize)) && 0 <= p <= usize::MAX
                <==> derived_from(ms, k as int, p) by {
            if parents@.contains(p as usize) && 0 <= p <= usize::MAX {
                let a = parents@.index_of(p as usize);
                assert(parents@[a] == p);
            }
            if derived_from(ms, k as int, p) {
                let x = ms[p].event_id;
                let a = e.sources.index_of(x);
                assert(e.sources[a] == x);
                lemma_found_unique(ms, p);
            }
        }
    }
    Ok(parents)
}

/// Checks that a derivation graph is closed in itself: identities are distinct,
/// exact events have sources, every source resolves within the interaction, and
/// nothing derives from itself.
pub fn validate_closed_derivation_graph(events: &Vec<DerivationEvent>, legacy: &StringHashSet) -> (r:
    Result<(), SyncError>)
    ensures
        match r {
            Ok(_) => graph_fault(models(events@), legacy@) is None,
            Err(f) => graph_fault(models(events@), legacy@) == Some(f),
        },
{
    let ghost ms = models(events@);
    let by_id = match index_events(events) {
        Some(map) => map,
        None => {
            return Err(SyncError::DuplicateEventId);
        },
    };
    let mut graph: Vec<Vec<usize>> = Vec::new();
    let mut k: usize = 0;
    while k < events.len()
        invariant
            k <= events.len(),
            ms == models(events@),
            graph.len() == k,
            models::all_distinct(event_ids(ms)),
            forall|x: Seq<char>| #[trigger]
                by_id@.contains_key(x) <==> find_event(ms, x, 0) is Some,
            forall|x: Seq<char>| #[trigger]
                by_id@.contains_key(x) ==> find_event(ms, x, 0) == Some(by_id@[x] as int),
            events_fault(ms, legacy@, 0) == events_fault(ms, legacy@, k as int),
            forall|i: int, j: int|
                0 <= i < k && 0 <= j < graph@[i]@.len() ==> (#[trigger] graph@[i]@[j])
                    < events@.len(),
            forall|i: int, p: int|
                #![trigger graph@[i]@.contains(p as usize)]
                0 <= i < k ==> (graph@[i]@.contains(p as usize) && 0 <= p <= usize::MAX
                    <==> derived_from(ms, i, p)),
        decreases events.len() - k,
    {
        assert(ms[k as int] == events@[k as int]@);
        let exact = events[k].relation == DerivationRelation::RewriteExact || events[k].relation
            == DerivationRelation::SquashExact;
        if exact && events[k].source_event_ids.len() == 0 {
            return Err(SyncError::ExactWithoutSource);
        }
        match resolve_sources(events, k, &by_id, legacy) {
            Ok(parents) => {
                graph.push(parents);
            },
            Err(f) => {
                return Err(f);
            },
        }
        k += 1;
    }
    let order = arrange(&graph);
    proof {
        assert forall|rank: Seq<nat>| graph::ranked(graph@, rank) implies events_ranked(
            ms,
            rank,
        ) by {
            assert forall|i: int, p: int| #[trigger] derived_from(ms, i, p) implies rank[p]
                < rank[i] by {
                assert(graph@[i]@.contains(p as usize));
                let j = graph@[i]@.index_of(p as usize);
                assert(rank[graph@[i]@[j] as int] < rank[i]);
            }
        }
        assert forall|rank: Seq<nat>| events_ranked(ms, rank) implies graph::ranked(
            graph@,
            rank,
        ) by {
            assert forall|i: int, j: int|
                0 <= i < graph@.len() && 0 <= j < graph@[i]@.len() implies rank[(
            #[trigger] graph@[i]@[j]) as int] < rank[i] by {
                let p = graph@[i]@[j];
                assert(graph@[i]@.contains((p as int) as usize));
                assert(derived_from(ms, i, p as int));
            }
        }
        if events_acyclic(ms) {
            let rank = choose|rank: Seq<nat>| events_ranked(ms, rank);
            assert(graph::ranked(graph@, rank));
        }
        if graph::acyclic(graph@) {
            let rank = choose|rank: Seq<nat>| graph::ranked(graph@, rank);
            assert(events_ranked(ms, rank));
        }
    }
    match order {
        Some(_) => Ok(()),
        None => Err(SyncError::CyclicGraph),
    }
}

/// What survives suppression neither belongs to a suppressed interaction, nor
/// names one, nor draws on an event that fell.
pub proof fn law_survivors_are_clean(
    events: Seq<EventModel>,
    ids: Seq<InteractionId>,
    endpoints: bool,
    i: int,
)
    requires
        0 <= i < survivors(events, ids, endpoints).len(),
    ensures
        events.contains(survivors(events, ids, endpoints)[i]),
        !directly_suppressed(survivors(events, ids, endpoints)[i], ids, endpoints),
        forall|j: int|
            0 <= j < survivors(events, ids, endpoints)[i].sources.len() ==> !falls(
                #[trigger] survivors(events, ids, endpoints)[i].sources[j],
                events,
                ids,
                endpoints,
            ),
{
    let keep = |e: EventModel| !falls(e.event_id, events, ids, endpoints);
    let e = survivors(events, ids, endpoints)[i];
    lemma_filter_from(events, keep, i);
    let k = choose|k: int| 0 <= k < events.len() && events[k] == e;
    if directly_suppressed(e, ids, endpoints) {
        assert(falls(e.event_id, events, ids, endpoints)) by {
            assert forall|set: Set<Seq<char>>| #[trigger]
                suppression_closed(set, events, ids, endpoints) implies set.contains(
                e.event_id,
            ) by {
                assert(directly_suppressed(events[k], ids, endpoints));
            }
        }
    }
    assert forall|j: int| 0 <= j < e.sources.len() implies !falls(
        #[trigger] e.sources[j],
        events,
        ids,
        endpoints,
    ) by {
        if falls(e.sources[j], events, ids, endpoints) {
            assert(falls(e.event_id, events, ids, endpoints)) by {
                assert forall|set: Set<Seq<char>>| #[trigger]
                    suppression_closed(set, events, ids, endpoints) implies set.contains(
                    e.event_id,
                ) by {
                    assert(set.contains(e.sources[j]));
                    assert(draws_on(events[k], set));
                }
            }
        }
    }
}

/// An element of a filtered list is one of the list and passes the filter.
proof fn lemma_filter_from(s: Seq<EventModel>, keep: spec_fn(EventModel) -> bool, i: int)
    requires
        0 <= i < s.filter(keep).len(),
    ensures
        s.contains(s.filter(keep)[i]),
        keep(s.filter(keep)[i]),
    decreases s.len(),
{
    reveal(Seq::filter);
    if s.len() > 0 {
        let p = s.drop_last();
        if i < p.filter(keep).len() {
            lemma_filter_from(p, keep, i);
            let k = choose|k: int| 0 <= k < p.len() && p[k] == p.filter(keep)[i];
            assert(s[k] == s.filter(keep)[i]);
        } else {
            assert(s[s.len() - 1] == s.filter(keep)[i]);
        }
    }
}

/// An element that passes the filter stays.
proof fn lemma_filter_keeps(s: Seq<EventModel>, keep: spec_fn(EventModel) -> bool, k: int)
    requires
        0 <= k < s.len(),
        keep(s[k]),
    ensures
        s.filter(keep).contains(s[k]),
    decreases s.len(),
{
    reveal(Seq::filter);
    let p = s.drop_last();
    if k < p.len() {
        lemma_filter_keeps(p, keep, k);
        let m = choose|m: int| 0 <= m < p.filter(keep).len() && p.filter(keep)[m] == p[k];
        assert(s.filter(keep)[m] == s[k]);
    } else {
        assert(s.filter(keep).last() == s[k]);
    }
}

/// Suppression leaves no dangling source behind: where every event source
/// resolved before, every event source of a survivor resolves to a survivor.
pub proof fn law_survivors_stay_closed(
    events: Seq<EventModel>,
    ids: Seq<InteractionId>,
    endpoints: bool,
    i: int,
    j: int,
)
    requires
        forall|k: int, m: int|
            0 <= k < events.len() && 0 <= m < events[k].sources.len() && event_source(
                #[trigger] events[k].sources[m],
            ) ==> event_ids(events).contains(events[k].sources[m]),
        0 <= i < survivors(events, ids, endpoints).len(),
        0 <= j < survivors(events, ids, endpoints)[i].sources.len(),
        event_source(survivors(events, ids, endpoints)[i].sources[j]),
    ensures
        event_ids(survivors(events, ids, endpoints)).contains(
            survivors(events, ids, endpoints)[i].sources[j],
        ),
{
    let keep = |e: EventModel| !falls(e.event_id, events, ids, endpoints);
    let kept = survivors(events, ids, endpoints);
    let e = kept[i];
    law_survivors_are_clean(events, ids, endpoints, i);
    let k = choose|k: int| 0 <= k < events.len() && events[k] == e;
    let x = e.sources[j];
    assert(event_ids(events).contains(events[k].sources[j]));
    let p = choose|p: int| 0 <= p < event_ids(events).len() && event_ids(events)[p] == x;
    assert(events[p].event_id == x);
    assert(!falls(x, events, ids, endpoints));
    lemma_filter_keeps(events, keep, p);
    let m = choose|m: int| 0 <= m < kept.len() && kept[m] == events[p];
    assert(event_ids(kept)[m] == x);
}

/// A graph that is accepted has an order in which every event stands behind
/// all events it derives from, and every event source resolves.
pub proof fn law_accepted_graph(events: Seq<EventModel>, legacy: Set<Seq<char>>, k: int, j: int)
    requires
        graph_fault(events, legacy) is None,
        0 <= k < events.len(),
        0 <= j < events[k].sources.len(),
    ensures
        events_acyclic(events),
        models::all_distinct(event_ids(events)),
        match legacy_source(events[k].sources[j]) {
            Some((interaction, commit)) => interaction == events[k].interaction_id.text()
                && legacy.contains(events[k].sources[j]),
            None => exists|p: int|
                derived_from(events, k, p) && (#[trigger] events[p]).event_id
                    == events[k].sources[j] && events[p].interaction_id
                    == events[k].interaction_id,
        },
{
    lemma_no_events_fault(events, legacy, 0, k);
    lemma_no_sources_fault(events[k], events, legacy, 0, j);
    let x = events[k].sources[j];
    if legacy_source(x) is None {
        lemma_find_event(events, x, 0);
        let p = find_event(events, x, 0)->0;
        assert(events[k].sources.contains(x));
        assert(derived_from(events, k, p));
    }
}

proof fn lemma_no_sources_fault(
    e: EventModel,
    events: Seq<EventModel>,
    legacy: Set<Seq<char>>,
    from: int,
    j: int,
)
    requires
        0 <= from <= j < e.sources.len(),
        sources_fault(e, events, legacy, from) is None,
    ensures
        source_fault(e.sources[j], e, events, legacy) is None,
    decreases j - from,
{
    if from < j {
        lemma_no_sources_fault(e, events, legacy, from + 1, j);
    }
}

proof fn lemma_no_events_fault(
    events: Seq<EventModel>,
    legacy: Set<Seq<char>>,
    from: int,
    k: int,
)
    requires
        0 <= from <= k < events.len(),
        events_fault(events, legacy, from) is None,
    ensures
        sources_fault(events[k], events, legacy, 0) is None,
        !(is_exact(events[k].relation) && events[k].sources.len() == 0),
    decreases k - from,
{
    if from < k {
        lemma_no_events_fault(events, legacy, from + 1, k);
    }
}

} // verus!
