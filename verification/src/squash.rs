//! Anchored range observation and exact, retryable squash recognition: which
//! commits a scan discovers, what a range claims, and the events that a
//! recognised squash derives.

use crate::changeset::{ChangesetError, ChangesetId};
use crate::derivation;
use crate::digest;
use crate::digest::{hex_digest, put_bytes};
use crate::models;
use crate::models::{
    CommitSha, DerivationEvent, DerivationOrigin, DerivationRelation, EventModel, Evidence,
    EvidenceKind, InteractionId, MAX_RANGE_COMMITS, RangeEvidence, RangeMember, RangeModel,
    RangeObservationOrigin, RangeSourceModel, RangeSourceSnapshot, SourceSnapshot,
    copy_range_sources, texts_equal,
};
use crate::order;
use crate::order::{sort_texts, text_less};
use crate::rewrite;
use crate::rewrite::snapshot_source_id;
use crate::text::{glue, glue3, text_equal};
use crate::textset;
use crate::textset::note_first;
use vstd::hash_map::*;
use vstd::prelude::*;
use vstd::string::*;
use vstd::utf8::*;

verus! {

pub const MAX_SCAN_COMMITS: usize = 128;

/// Why a range or a squash was not taken in.
#[derive(Debug)]
pub enum SquashError {
    Git(String),
    Db(String),
    Changeset(ChangesetError),
    Invalid(&'static str),
    Deadline,
}

impl SquashError {
    /// The message for people.
    pub open spec fn text(self) -> Seq<char> {
        match self {
            SquashError::Git(words) => "git: "@ + words@,
            SquashError::Db(words) => "db: "@ + words@,
            SquashError::Changeset(error) => "changeset: "@ + error.text(),
            SquashError::Invalid(words) => "invalid range: "@ + words@,
            SquashError::Deadline => "squash operation deadline exceeded"@,
        }
    }

    /// The message for people.
    pub fn message(&self) -> (r: String)
        ensures
            r@ == self.text(),
    {
        match self {
            SquashError::Git(words) => glue("git: ", words.as_str()),
            SquashError::Db(words) => glue("db: ", words.as_str()),
            SquashError::Changeset(error) => glue("changeset: ", error.message().as_str()),
            SquashError::Invalid(words) => glue("invalid range: ", words),
            SquashError::Deadline => "squash operation deadline exceeded".to_owned(),
        }
    }
}

/// The error says that the input is invalid, in these words.
pub open spec fn invalidates(e: SquashError, reason: Seq<char>) -> bool {
    e matches SquashError::Invalid(said) && said@ == reason
}

/// The identity of a repository: a digest of the path of its common directory.
pub fn repository_identity(common_dir: &[u8]) -> (r: String)
    ensures
        r@ == digest::digest_text(encode_utf8("cvc.repository/local/v1\0"@) + common_dir@),
        digest::is_lower_hex(r@, 64),
{
    let mut h: Vec<u8> = Vec::new();
    put_bytes(&mut h, "cvc.repository/local/v1\0".as_bytes());
    put_bytes(&mut h, common_dir);
    assert(h@ =~= encode_utf8("cvc.repository/local/v1\0"@) + common_dir@);
    hex_digest(h.as_slice())
}

/// The key of a worktree: a digest of the path of its own directory.
pub fn worktree_key(git_dir: &[u8]) -> (r: String)
    ensures
        r@ == digest::digest_text(git_dir@),
{
    hex_digest(git_dir)
}

/// The source material of a range for one snapshot of an interaction.
pub fn range_source(interaction: &InteractionId, snapshot: &SourceSnapshot) -> (r:
    RangeSourceSnapshot)
    ensures
        r@ == (RangeSourceModel {
            interaction_id: *interaction,
            source_id: rewrite::snapshot_source(snapshot@),
            snapshot: snapshot@,
        }),
{
    RangeSourceSnapshot {
        interaction_id: *interaction,
        source_id: snapshot_source_id(snapshot),
        snapshot: snapshot.clone(),
    }
}

/// Two records are about the same source of the same interaction.
pub open spec fn same_source(a: RangeSourceModel, b: RangeSourceModel) -> bool {
    a.interaction_id == b.interaction_id && a.source_id == b.source_id
}

/// The order of source records: by interaction, then by source.
pub open spec fn source_lt(a: RangeSourceModel, b: RangeSourceModel) -> bool {
    if a.interaction_id != b.interaction_id {
        order::text_lt(a.interaction_id.text(), b.interaction_id.text())
    } else {
        order::text_lt(a.source_id, b.source_id)
    }
}

/// `x` put into the ascending list `s`, unless `s` holds a record of its source.
pub open spec fn source_insert(s: Seq<RangeSourceModel>, x: RangeSourceModel) -> Seq<
    RangeSourceModel,
>
    decreases s.len(),
{
    if s.len() == 0 {
        seq![x]
    } else if same_source(s.last(), x) {
        s
    } else if source_lt(s.last(), x) {
        s.push(x)
    } else {
        source_insert(s.drop_last(), x).push(s.last())
    }
}

/// The records in ascending order, of each source the one found first.
pub open spec fn gathered(s: Seq<RangeSourceModel>) -> Seq<RangeSourceModel>
    decreases s.len(),
{
    if s.len() == 0 {
        Seq::empty()
    } else {
        source_insert(gathered(s.drop_last()), s.last())
    }
}

fn source_less(a: &RangeSourceSnapshot, b: &RangeSourceSnapshot) -> (r: bool)
    ensures
        r == source_lt(a@, b@),
{
    if a.interaction_id != b.interaction_id {
        text_less(a.interaction_id.as_str().as_str(), b.interaction_id.as_str().as_str())
    } else {
        text_less(a.source_id.as_str(), b.source_id.as_str())
    }
}

fn insert_source(list: &mut Vec<RangeSourceSnapshot>, x: RangeSourceSnapshot)
    ensures
        models::range_source_models(final(list)@) == source_insert(
            models::range_source_models(old(list)@),
            x@,
        ),
{
    let ghost s = models::range_source_models(list@);
    let n: usize = list.len();
    let mut k: usize = n;
    proof {
        assert(s.take(n as int) =~= s);
        assert(source_insert(s, x@) =~= source_insert(s.take(n as int), x@) + s.skip(n as int));
    }
    while k > 0
        invariant
            k <= n,
            n == list@.len(),
            s == models::range_source_models(list@),
            s.len() == n,
            source_insert(s, x@) == source_insert(s.take(k as int), x@) + s.skip(k as int),
        ensures
            k <= n,
            k == 0 || (!same_source(s[k - 1], x@) && source_lt(s[k - 1], x@)),
            source_insert(s, x@) == source_insert(s.take(k as int), x@) + s.skip(k as int),
        decreases k,
    {
        let ghost t = s.take(k as int);
        assert(t.last() == s[k - 1]);
        assert(s[k - 1] == list@[k - 1]@);
        if list[k - 1].interaction_id == x.interaction_id && text_equal(
            list[k - 1].source_id.as_str(),
            x.source_id.as_str(),
        ) {
            proof {
                assert(source_insert(s, x@) =~= s);
            }
            return ;
        }
        if source_less(&list[k - 1], &x) {
            break;
        }
        proof {
            assert(t.drop_last() =~= s.take(k - 1));
            assert(source_insert(t, x@) + s.skip(k as int) =~= source_insert(s.take(k - 1), x@)
                + s.skip(k - 1));
        }
        k -= 1;
    }
    let ghost made = x@;
    proof {
        let t = s.take(k as int);
        if k > 0 {
            assert(t.last() == s[k - 1]);
        }
        assert(source_insert(t, made) =~= t.push(made));
    }
    list.insert(k, x);
    proof {
        assert(models::range_source_models(list@) =~= s.take(k as int).push(made) + s.skip(
            k as int,
        ));
    }
}

/// Puts source records in ascending order and keeps one of each source.
pub fn gather_sources(found: &Vec<RangeSourceSnapshot>) -> (r: Vec<RangeSourceSnapshot>)
    ensures
        models::range_source_models(r@) == gathered(models::range_source_models(found@)),
{
    let ghost s = models::range_source_models(found@);
    let n: usize = found.len();
    let mut out: Vec<RangeSourceSnapshot> = Vec::new();
    let mut i: usize = 0;
    assert(s.take(0) =~= Seq::<RangeSourceModel>::empty());
    assert(models::range_source_models(out@) =~= gathered(s.take(0)));
    while i < n
        invariant
            i <= n,
            n == found@.len(),
            s == models::range_source_models(found@),
            models::range_source_models(out@) == gathered(s.take(i as int)),
        decreases n - i,
    {
        proof {
            assert(s.take(i + 1).drop_last() =~= s.take(i as int));
            assert(s.take(i + 1).last() == found@[i as int]@);
        }
        insert_source(&mut out, found[i].clone());
        i += 1;
    }
    assert(s.take(n as int) =~= s);
    out
}

/// Only a range from a strict ancestor that is its one merge base is observed.
pub fn check_range(base: &str, tip: &str, descends: bool, bases: &Vec<String>) -> (r: Result<
    (),
    SquashError,
>)
    ensures
        r is Ok <==> base@ != tip@ && descends && bases.deep_view() == seq![base@],
        r matches Err(e) ==> invalidates(
            e,
            if base@ == tip@ || !descends {
                "base must be a strict ancestor of tip"@
            } else {
                "range requires a unique merge base equal to base"@
            },
        ),
{
    if text_equal(base, tip) || !descends {
        return Err(SquashError::Invalid("base must be a strict ancestor of tip"));
    }
    let ghost seen = bases.deep_view();
    assert(seen.len() == bases@.len());
    if bases.len() != 1 {
        return Err(SquashError::Invalid("range requires a unique merge base equal to base"));
    }
    assert(seen[0] == bases@[0]@);
    if !text_equal(bases[0].as_str(), base) {
        assert(seen != seq![base@]) by {
            assert(seq![base@][0] == base@);
        }
        return Err(SquashError::Invalid("range requires a unique merge base equal to base"));
    }
    assert(seen =~= seq![base@]);
    Ok(())
}

/// A range has at least one commit and at most the bound.
pub fn check_members(count: usize) -> (r: Result<(), SquashError>)
    ensures
        r is Ok <==> 0 < count <= models::MAX_RANGE_COMMITS,
        r matches Err(e) ==> invalidates(
            e,
            if count == 0 {
                "empty range"@
            } else {
                "commit membership bound"@
            },
        ),
{
    if count > MAX_RANGE_COMMITS {
        return Err(SquashError::Invalid("commit membership bound"));
    }
    if count == 0 {
        return Err(SquashError::Invalid("empty range"));
    }
    Ok(())
}

/// What the repository says of a range.
pub struct RangeFacts {
    pub repository_identity: String,
    pub base: String,
    pub tip: String,
    pub base_tree: String,
    pub tip_tree: String,
    pub commits: Vec<String>,
}

/// The evidence of a range under the identity that its contents give it.
pub open spec fn range_identified(m: RangeModel) -> RangeModel {
    RangeModel { range_id: models::range_identity(m), ..m }
}

/// The evidence that facts and a changeset give.
pub open spec fn observed_range(facts: RangeFacts, algorithm: Seq<char>, digest: Seq<char>) -> RangeModel {
    range_identified(
        RangeModel {
            range_id: Seq::empty(),
            format: "cvc.range-evidence/v1"@,
            version: 1,
            repository_identity: facts.repository_identity@,
            object_format: "sha1"@,
            base_oid: facts.base@,
            tip_oid: facts.tip@,
            base_tree_oid: facts.base_tree@,
            result_tree_oid: facts.tip_tree@,
            commits: facts.commits.deep_view(),
            changeset_algorithm: algorithm,
            changeset_digest: digest,
        },
    )
}

/// What a repository says of a range: full object names, at least one commit
/// and not too many, none of them twice.
pub open spec fn sound_facts(facts: RangeFacts) -> bool {
    &&& digest::is_lower_hex(facts.repository_identity@, 64)
    &&& digest::is_lower_hex(facts.base@, 40)
    &&& digest::is_lower_hex(facts.tip@, 40)
    &&& digest::is_lower_hex(facts.base_tree@, 40)
    &&& digest::is_lower_hex(facts.tip_tree@, 40)
    &&& 0 < facts.commits@.len() <= MAX_RANGE_COMMITS
    &&& forall|i: int|
        0 <= i < facts.commits@.len() ==> digest::is_lower_hex((#[trigger] facts.commits@[i])@, 40)
    &&& models::all_distinct(facts.commits.deep_view())
}

/// Builds the evidence of a range. What is built for sound facts and a changeset
/// of the current algorithm verifies.
pub fn range_evidence(facts: &RangeFacts, change: &ChangesetId) -> (r: RangeEvidence)
    ensures
        r@ == observed_range(*facts, change.algorithm@, change.digest@),
        r@.repository_identity == facts.repository_identity@,
        r@.base_oid == facts.base@,
        r@.tip_oid == facts.tip@,
        r@.base_tree_oid == facts.base_tree@,
        r@.result_tree_oid == facts.tip_tree@,
        r@.commits == facts.commits.deep_view(),
        r@.changeset_algorithm == change.algorithm@,
        r@.changeset_digest == change.digest@,
        r@.range_id == models::range_identity(r@),
        sound_facts(*facts) && change.algorithm@ == "cvc.changeset/v1"@ && digest::is_lower_hex(
            change.digest@,
            64,
        ) ==> models::valid_range(r@),
{
    let ghost names = facts.commits.deep_view();
    let n: usize = facts.commits.len();
    let mut commits: Vec<RangeMember> = Vec::new();
    let mut i: usize = 0;
    while i < n
        invariant
            i <= n,
            n == facts.commits@.len(),
            names == facts.commits.deep_view(),
            models::member_names(commits@) == names.take(i as int),
        decreases n - i,
    {
        let ghost held = models::member_names(commits@);
        commits.push(RangeMember { commit_oid: CommitSha::new(facts.commits[i].clone()) });
        assert(models::member_names(commits@) =~= held.push(facts.commits@[i as int]@));
        i += 1;
        assert(names.take(i as int) =~= held.push(names[i - 1]));
    }
    assert(names.take(n as int) =~= names);
    let mut range = RangeEvidence {
        range_id: String::new(),
        format: "cvc.range-evidence/v1".to_owned(),
        version: 1,
        repository_identity: facts.repository_identity.clone(),
        object_format: "sha1".to_owned(),
        base_oid: CommitSha::new(facts.base.clone()),
        tip_oid: CommitSha::new(facts.tip.clone()),
        base_tree_oid: facts.base_tree.clone(),
        result_tree_oid: facts.tip_tree.clone(),
        commits,
        changeset_algorithm: change.algorithm.to_owned(),
        changeset_digest: change.digest.clone(),
    };
    assert(range.range_id@ =~= Seq::<char>::empty());
    let ghost bare = range@;
    let id = range.canonical_id();
    range.range_id = id;
    assert(models::range_payload(range@) == models::range_payload(bare));
    assert forall|i: int| 0 <= i < facts.commits@.len() implies #[trigger] range@.commits[i]
        == facts.commits@[i]@ by {}
    range
}

/// The word for how a range was observed, inside observation keys.
pub open spec fn origin_word(origin: RangeObservationOrigin) -> Seq<char> {
    match origin {
        RangeObservationOrigin::Explicit => "explicit"@,
        RangeObservationOrigin::PrePush => "pre-push"@,
    }
}

/// The key under which an observation of a range is kept: how it was observed,
/// for which remote, and on which reference.
pub fn observation_key(
    origin: RangeObservationOrigin,
    source_remote: Option<&str>,
    source_ref: Option<&str>,
) -> (r: String)
    ensures
        r@ == origin_word(origin) + ":"@ + (match source_remote {
            Some(s) => s@,
            None => "local"@,
        }) + ":"@ + (match source_ref {
            Some(s) => s@,
            None => "detached"@,
        }),
{
    let word = match origin {
        RangeObservationOrigin::Explicit => "explicit",
        RangeObservationOrigin::PrePush => "pre-push",
    };
    let remote = match source_remote {
        Some(s) => s,
        None => "local",
    };
    let reference = match source_ref {
        Some(s) => s,
        None => "detached",
    };
    let mut key = glue3(word, ":", remote);
    key.append(":");
    key.append(reference);
    key
}

/// The interactions of source records, as texts.
pub open spec fn interaction_texts(s: Seq<RangeSourceModel>) -> Seq<Seq<char>> {
    s.map_values(|x: RangeSourceModel| x.interaction_id.text())
}

/// The sources that the first `k` records list for an interaction.
pub open spec fn ids_of(s: Seq<RangeSourceModel>, id: InteractionId, k: nat) -> Seq<Seq<char>>
    decreases k,
{
    if k == 0 {
        Seq::empty()
    } else if s[k - 1].interaction_id == id {
        ids_of(s, id, (k - 1) as nat).push(s[k - 1].source_id)
    } else {
        ids_of(s, id, (k - 1) as nat)
    }
}

/// The sources that the records list for an interaction, ascending, each once.
pub open spec fn squash_ids(s: Seq<RangeSourceModel>, id: InteractionId) -> Seq<Seq<char>> {
    order::sorted_set(ids_of(s, id, s.len()))
}

/// The event that a squash derives for one interaction.
pub open spec fn squash_event(
    candidate: Seq<char>,
    range_id: Seq<char>,
    id: InteractionId,
    sources: Seq<Seq<char>>,
) -> EventModel {
    rewrite::identified(
        EventModel {
            event_id: Seq::empty(),
            interaction_id: id,
            target_commit: candidate,
            relation: DerivationRelation::SquashExact,
            evidence: Evidence { version: 1, kind: EvidenceKind::LocallyObserved },
            origin: DerivationOrigin::LocalHook,
            sources,
            old_oid: None,
            new_oid: None,
            range_id: Some(range_id),
            linked_by: None,
        },
    )
}

/// The first interaction with this text.
pub open spec fn interaction_named(s: Seq<RangeSourceModel>, text: Seq<char>) -> InteractionId {
    s[textset::position_of(interaction_texts(s), text, 0)->0].interaction_id
}

/// One event for each interaction, in ascending order, over all its sources.
pub open spec fn squash_events(
    candidate: Seq<char>,
    range_id: Seq<char>,
    s: Seq<RangeSourceModel>,
) -> Seq<EventModel> {
    order::sorted_set(interaction_texts(s)).map_values(
        |text: Seq<char>|
            {
                let id = interaction_named(s, text);
                squash_event(candidate, range_id, id, squash_ids(s, id))
            },
    )
}

fn ids_for(sources: &Vec<RangeSourceSnapshot>, id: &InteractionId) -> (r: Vec<String>)
    ensures
        r.deep_view() == squash_ids(models::range_source_models(sources@), *id),
{
    let ghost s = models::range_source_models(sources@);
    let n: usize = sources.len();
    let mut found: Vec<String> = Vec::new();
    assert(found.deep_view() =~= Seq::<Seq<char>>::empty());
    let mut i: usize = 0;
    while i < n
        invariant
            i <= n,
            n == sources@.len(),
            s == models::range_source_models(sources@),
            found.deep_view() == ids_of(s, *id, i as nat),
        decreases n - i,
    {
        assert(s[i as int] == sources@[i as int]@);
        if sources[i].interaction_id == *id {
            let ghost held = found.deep_view();
            found.push(sources[i].source_id.clone());
            assert(found.deep_view() =~= held.push(s[i as int].source_id));
        }
        i += 1;
    }
    sort_texts(&found)
}

fn plan_events(candidate: &str, range_id: &str, sources: &Vec<RangeSourceSnapshot>) -> (r: Vec<
    DerivationEvent,
>)
    ensures
        derivation::models(r@) == squash_events(
            candidate@,
            range_id@,
            models::range_source_models(sources@),
        ),
{
    let ghost s = models::range_source_models(sources@);
    let ghost named = interaction_texts(s);
    let n: usize = sources.len();
    let mut texts: Vec<String> = Vec::new();
    let mut first: StringHashMap<usize> = StringHashMap::new();
    let mut i: usize = 0;
    assert(texts.deep_view() =~= named.take(0));
    assert(textset::is_first_index(first@, named.take(0)));
    while i < n
        invariant
            i <= n,
            n == sources@.len(),
            s == models::range_source_models(sources@),
            named == interaction_texts(s),
            texts.deep_view() == named.take(i as int),
            textset::is_first_index(first@, named.take(i as int)),
        decreases n - i,
    {
        let ghost held = texts.deep_view();
        let text = sources[i].interaction_id.as_str();
        assert(named[i as int] == text@) by {
            assert(s[i as int] == sources@[i as int]@);
        }
        note_first(&mut first, text.as_str(), i);
        texts.push(text);
        assert(texts.deep_view() =~= held.push(named[i as int]));
        i += 1;
        assert(named.take(i as int) =~= held.push(named[i - 1]));
    }
    assert(named.take(n as int) =~= named);
    let sorted = sort_texts(&texts);
    let ghost keys = order::sorted_set(named);
    let ghost wanted = squash_events(candidate@, range_id@, s);
    proof {
        order::lemma_sorted_set(named);
    }
    let m: usize = sorted.len();
    let mut events: Vec<DerivationEvent> = Vec::new();
    let mut k: usize = 0;
    assert(derivation::models(events@) =~= wanted.take(0));
    while k < m
        invariant
            k <= m,
            m == sorted@.len(),
            n == sources@.len(),
            s == models::range_source_models(sources@),
            named == interaction_texts(s),
            keys == order::sorted_set(named),
            sorted.deep_view() == keys,
            forall|x: Seq<char>| #[trigger] keys.contains(x) <==> named.contains(x),
            textset::is_first_index(first@, named),
            wanted == squash_events(candidate@, range_id@, s),
            derivation::models(events@) == wanted.take(k as int),
        decreases m - k,
    {
        let ghost key = keys[k as int];
        assert(key == sorted@[k as int]@) by {
            assert(sorted.deep_view()[k as int] == sorted@[k as int]@);
        }
        proof {
            assert(keys.contains(key));
            assert(named.contains(key));
            textset::lemma_position_of(named, key, 0);
            let j = choose|j: int| 0 <= j < named.len() && named[j] == key;
            assert(textset::position_of(named, key, 0) is Some);
            let _ = first@.contains_key(key);
        }
        match first.get(sorted[k].as_str()) {
            Some(at) => {
                let id = sources[*at].interaction_id;
                assert(s[*at as int] == sources@[*at as int]@);
                assert(id == interaction_named(s, key));
                let ghost held = derivation::models(events@);
                let mut event = DerivationEvent {
                    event_id: String::new(),
                    interaction_id: id,
                    target_commit: CommitSha::new(candidate.to_owned()),
                    relation: DerivationRelation::SquashExact,
                    evidence: Evidence { version: 1, kind: EvidenceKind::LocallyObserved },
                    origin: DerivationOrigin::LocalHook,
                    source_event_ids: ids_for(sources, &id),
                    old_oid: None,
                    new_oid: None,
                    range_id: Some(range_id.to_owned()),
                    linked_by: None,
                };
                assert(event.event_id@ =~= Seq::<char>::empty());
                let name = event.canonical_id();
                event.event_id = name;
                assert(event@ == wanted[k as int]);
                events.push(event);
                assert(derivation::models(events@) =~= held.push(wanted[k as int]));
            },
            None => {
                assert(false);
            },
        }
        k += 1;
        assert(derivation::models(events@) =~= wanted.take(k as int));
    }
    assert(wanted.take(m as int) =~= wanted);
    events
}

/// An event that can stand in a squash of this commit over this range.
#[verifier::opaque]
pub open spec fn sound_squash_event(e: EventModel, candidate: Seq<char>, range_id: Seq<char>) -> bool {
    &&& e.event_id == models::event_identity(e)
    &&& e.target_commit == candidate
    &&& e.relation is SquashExact
    &&& e.evidence.version == 1
    &&& e.evidence.kind is LocallyObserved
    &&& e.origin is LocalHook
    &&& e.old_oid is None
    &&& e.new_oid is None
    &&& e.range_id == Some(range_id)
    &&& order::strictly_sorted(e.sources)
}

/// Every event can stand in the squash.
pub open spec fn all_sound(events: Seq<EventModel>, candidate: Seq<char>, range_id: Seq<char>) -> bool {
    forall|k: int|
        0 <= k < events.len() ==> sound_squash_event(#[trigger] events[k], candidate, range_id)
}

/// No two events are about the same interaction.
pub open spec fn unsplit(events: Seq<EventModel>) -> bool {
    forall|i: int, j: int|
        0 <= i < j < events.len() ==> (#[trigger] events[i]).interaction_id != (
        #[trigger] events[j]).interaction_id
}

/// The records list the interaction.
pub open spec fn lists(s: Seq<RangeSourceModel>, id: InteractionId) -> bool {
    exists|i: int| 0 <= i < s.len() && (#[trigger] s[i]).interaction_id == id
}

/// Some event is about the interaction.
pub open spec fn covered(events: Seq<EventModel>, id: InteractionId) -> bool {
    exists|k: int| 0 <= k < events.len() && (#[trigger] events[k]).interaction_id == id
}

/// Every event cites exactly the sources of its interaction, and every listed
/// interaction has an event.
pub open spec fn complete(s: Seq<RangeSourceModel>, events: Seq<EventModel>) -> bool {
    &&& forall|k: int|
        0 <= k < events.len() ==> lists(s, (#[trigger] events[k]).interaction_id)
            && events[k].sources == squash_ids(s, events[k].interaction_id)
    &&& forall|i: int| 0 <= i < s.len() ==> covered(events, (#[trigger] s[i]).interaction_id)
}

/// Why events are no partition of the sources.
pub open spec fn partition_fault(
    candidate: Seq<char>,
    range_id: Seq<char>,
    s: Seq<RangeSourceModel>,
    events: Seq<EventModel>,
) -> Option<Seq<char>> {
    if s.len() == 0 {
        Some("empty squash source set"@)
    } else if !all_sound(events, candidate, range_id) || !unsplit(events) {
        Some("invalid squash event partition"@)
    } else if !complete(s, events) {
        Some("incomplete squash event partition"@)
    } else {
        None
    }
}

fn is_sound(event: &DerivationEvent, candidate: &str, range_id: &str) -> (r: bool)
    ensures
        r == sound_squash_event(event@, candidate@, range_id@),
{
    reveal(sound_squash_event);
    let in_range = match &event.range_id {
        Some(id) => text_equal(id.as_str(), range_id),
        None => false,
    };
    event.verify_id() && text_equal(event.target_commit.as_str(), candidate) && event.relation
        == DerivationRelation::SquashExact && event.evidence.version == 1 && event.evidence.kind
        == EvidenceKind::LocallyObserved && event.origin == DerivationOrigin::LocalHook
        && event.old_oid.is_none() && event.new_oid.is_none() && in_range
        && event.sources_are_canonical()
}

fn has_event(events: &Vec<DerivationEvent>, upto: usize, id: &InteractionId) -> (r: bool)
    requires
        upto <= events@.len(),
    ensures
        r == (exists|k: int|
            0 <= k < upto && (#[trigger] derivation::models(events@)[k]).interaction_id == *id),
{
    let ghost all = derivation::models(events@);
    let mut k: usize = 0;
    while k < upto
        invariant
            k <= upto,
            upto <= events@.len(),
            all == derivation::models(events@),
            forall|j: int| 0 <= j < k ==> (#[trigger] all[j]).interaction_id != *id,
        decreases upto - k,
    {
        assert(all[k as int] == events@[k as int]@);
        if events[k].interaction_id == *id {
            return true;
        }
        k += 1;
    }
    false
}

fn is_listed(sources: &Vec<RangeSourceSnapshot>, id: &InteractionId) -> (r: bool)
    ensures
        r == lists(models::range_source_models(sources@), *id),
{
    let ghost s = models::range_source_models(sources@);
    let n: usize = sources.len();
    let mut i: usize = 0;
    while i < n
        invariant
            i <= n,
            n == sources@.len(),
            s == models::range_source_models(sources@),
            forall|j: int| 0 <= j < i ==> (#[trigger] s[j]).interaction_id != *id,
        decreases n - i,
    {
        assert(s[i as int] == sources@[i as int]@);
        if sources[i].interaction_id == *id {
            return true;
        }
        i += 1;
    }
    false
}

/// Validates that events partition the sources of a range: one sound event for
/// each interaction, over exactly its sources.
pub fn validate_events(
    candidate: &str,
    range: &RangeEvidence,
    sources: &Vec<RangeSourceSnapshot>,
    events: &Vec<DerivationEvent>,
) -> (r: Result<(), SquashError>)
    ensures
        ({
            let fault = partition_fault(
                candidate@,
                range@.range_id,
                models::range_source_models(sources@),
                derivation::models(events@),
            );
            match r {
                Ok(()) => fault is None,
                Err(e) => fault is Some && invalidates(e, fault->0),
            }
        }),
{
    let ghost s = models::range_source_models(sources@);
    let ghost all = derivation::models(events@);
    let ghost range_id = range@.range_id;
    let n: usize = sources.len();
    let m: usize = events.len();
    if n == 0 {
        return Err(SquashError::Invalid("empty squash source set"));
    }
    let mut k: usize = 0;
    while k < m
        invariant
            k <= m,
            m == events@.len(),
            s.len() > 0,
            s == models::range_source_models(sources@),
            all == derivation::models(events@),
            range_id == range@.range_id,
            forall|j: int| 0 <= j < k ==> sound_squash_event(#[trigger] all[j], candidate@, range_id),
            forall|i: int, j: int|
                0 <= i < j < k ==> (#[trigger] all[i]).interaction_id != (
                #[trigger] all[j]).interaction_id,
        decreases m - k,
    {
        assert(all[k as int] == events@[k as int]@);
        if !is_sound(&events[k], candidate, range.range_id.as_str()) || has_event(
            events,
            k,
            &events[k].interaction_id,
        ) {
            proof {
                if sound_squash_event(all[k as int], candidate@, range_id) {
                    let q = choose|q: int|
                        0 <= q < k && (#[trigger] all[q]).interaction_id
                            == all[k as int].interaction_id;
                    assert(!unsplit(all));
                } else {
                    assert(!all_sound(all, candidate@, range_id));
                }
            }
            return Err(SquashError::Invalid("invalid squash event partition"));
        }
        k += 1;
    }
    assert(all_sound(all, candidate@, range_id));
    assert(unsplit(all));
    let mut j: usize = 0;
    while j < m
        invariant
            j <= m,
            m == events@.len(),
            s.len() > 0,
            s == models::range_source_models(sources@),
            all == derivation::models(events@),
            unsplit(all),
            all_sound(all, candidate@, range_id),
            range_id == range@.range_id,
            forall|q: int|
                0 <= q < j ==> lists(s, (#[trigger] all[q]).interaction_id) && all[q].sources
                    == squash_ids(s, all[q].interaction_id),
        decreases m - j,
    {
        let event = &events[j];
        assert(all[j as int] == event@);
        if !is_listed(sources, &event.interaction_id) || !texts_equal(
            &event.source_event_ids,
            &ids_for(sources, &event.interaction_id),
        ) {
            assert(!complete(s, all));
            return Err(SquashError::Invalid("incomplete squash event partition"));
        }
        j += 1;
    }
    let mut i: usize = 0;
    while i < n
        invariant
            i <= n,
            n == sources@.len(),
            m == events@.len(),
            s.len() > 0,
            s == models::range_source_models(sources@),
            all == derivation::models(events@),
            unsplit(all),
            all_sound(all, candidate@, range_id),
            range_id == range@.range_id,
            forall|q: int| 0 <= q < i ==> covered(all, (#[trigger] s[q]).interaction_id),
        decreases n - i,
    {
        assert(s[i as int] == sources@[i as int]@);
        if !has_event(events, m, &sources[i].interaction_id) {
            assert(!covered(all, s[i as int].interaction_id));
            assert(!complete(s, all));
            return Err(SquashError::Invalid("incomplete squash event partition"));
        }
        i += 1;
    }
    Ok(())
}

spec fn planned_at(
    candidate: Seq<char>,
    range_id: Seq<char>,
    s: Seq<RangeSourceModel>,
    e: EventModel,
    key: Seq<char>,
) -> bool {
    &&& e.interaction_id.text() == key
    &&& lists(s, e.interaction_id)
    &&& e.sources == squash_ids(s, e.interaction_id)
    &&& sound_squash_event(e, candidate, range_id)
}

proof fn lemma_planned_event(
    candidate: Seq<char>,
    range_id: Seq<char>,
    s: Seq<RangeSourceModel>,
    k: int,
)
    requires
        0 <= k < squash_events(candidate, range_id, s).len(),
    ensures
        planned_at(
            candidate,
            range_id,
            s,
            squash_events(candidate, range_id, s)[k],
            order::sorted_set(interaction_texts(s))[k],
        ),
{
    let named = interaction_texts(s);
    let keys = order::sorted_set(named);
    order::lemma_sorted_set(named);
    let key = keys[k];
    assert(keys.contains(key));
    assert(named.contains(key));
    textset::lemma_position_of(named, key, 0);
    let j = choose|j: int| 0 <= j < named.len() && named[j] == key;
    let at = textset::position_of(named, key, 0)->0;
    assert(named[at] == key);
    let id = interaction_named(s, key);
    assert(s[at].interaction_id == id);
    let e = squash_events(candidate, range_id, s)[k];
    assert(e == squash_event(candidate, range_id, id, squash_ids(s, id)));
    order::lemma_sorted_set(ids_of(s, id, s.len()));
    lemma_identified(
        EventModel {
            event_id: Seq::empty(),
            interaction_id: id,
            target_commit: candidate,
            relation: DerivationRelation::SquashExact,
            evidence: Evidence { version: 1, kind: EvidenceKind::LocallyObserved },
            origin: DerivationOrigin::LocalHook,
            sources: squash_ids(s, id),
            old_oid: None,
            new_oid: None,
            range_id: Some(range_id),
            linked_by: None,
        },
    );
    reveal(sound_squash_event);
}

/// The events that a squash derives always partition its sources: the partition
/// is complete, unsplit and sound.
pub proof fn law_planned_events_partition(
    candidate: Seq<char>,
    range_id: Seq<char>,
    s: Seq<RangeSourceModel>,
)
    requires
        s.len() > 0,
    ensures
        partition_fault(candidate, range_id, s, squash_events(candidate, range_id, s)) is None,
{
    let named = interaction_texts(s);
    let keys = order::sorted_set(named);
    let events = squash_events(candidate, range_id, s);
    order::lemma_sorted_set(named);
    assert forall|k: int| 0 <= k < events.len() implies planned_at(
        candidate,
        range_id,
        s,
        #[trigger] events[k],
        keys[k],
    ) by {
        lemma_planned_event(candidate, range_id, s, k);
    }
    assert(all_sound(events, candidate, range_id));
    assert forall|i: int, j: int| 0 <= i < j < events.len() implies (
    #[trigger] events[i]).interaction_id != (#[trigger] events[j]).interaction_id by {
        assert(order::text_lt(keys[i], keys[j]));
        order::lemma_text_order(keys[i], keys[j]);
    }
    assert forall|i: int| 0 <= i < s.len() implies covered(
        events,
        (#[trigger] s[i]).interaction_id,
    ) by {
        let id = s[i].interaction_id;
        assert(named[i] == id.text());
        assert(named.contains(id.text()));
        assert(keys.contains(id.text()));
        let k = choose|k: int| 0 <= k < keys.len() && keys[k] == id.text();
        assert(events[k].interaction_id.text() == id.text());
        models::lemma_uuid_text_injective(events[k].interaction_id.value, id.value);
        assert(events[k].interaction_id == id);
    }
}

/// The identity of an event does not cover the identity that it carries.
pub proof fn lemma_identified(m: EventModel)
    ensures
        rewrite::identified(m).event_id == models::event_identity(rewrite::identified(m)),
{
    let e = rewrite::identified(m);
    assert(models::event_payload(e) == models::event_payload(m));
}

/// A trusted range with its sources, as the store has it.
pub struct TrustedRange {
    pub range: RangeEvidence,
    pub sources: Vec<RangeSourceSnapshot>,
}

impl View for TrustedRange {
    type V = (RangeModel, Seq<RangeSourceModel>);

    open spec fn view(&self) -> (RangeModel, Seq<RangeSourceModel>) {
        (self.range@, models::range_source_models(self.sources@))
    }
}

/// The contents of trusted ranges.
pub open spec fn trusted_models(s: Seq<TrustedRange>) -> Seq<(RangeModel, Seq<RangeSourceModel>)> {
    s.map_values(|x: TrustedRange| x@)
}

/// The trusted ranges with this identity among the first `k`.
pub open spec fn named_ranges(
    s: Seq<(RangeModel, Seq<RangeSourceModel>)>,
    id: Seq<char>,
    k: nat,
) -> Seq<(RangeModel, Seq<RangeSourceModel>)>
    decreases k,
{
    if k == 0 {
        Seq::empty()
    } else if s[k - 1].0.range_id == id {
        named_ranges(s, id, (k - 1) as nat).push(s[k - 1])
    } else {
        named_ranges(s, id, (k - 1) as nat)
    }
}

/// What a squash would be applied to.
pub struct SquashTarget {
    pub worktree: String,
    pub symbolic_ref: String,
    pub expected_cursor: String,
    pub candidate: String,
    pub expected_parent: String,
    pub expected_head: String,
}

/// A squash that may be applied. Only [`ValidatedSquashPlan::build`] makes one.
pub struct ValidatedSquashPlan {
    target: SquashTarget,
    range: RangeEvidence,
    sources: Vec<RangeSourceSnapshot>,
    events: Vec<DerivationEvent>,
}

/// Why no plan can be built from what the repository and the store say.
pub open spec fn plan_refusal(
    parents: Seq<Seq<char>>,
    expected_parent: Seq<char>,
    algorithm: Seq<char>,
    digest: Seq<char>,
    persisted: Seq<(RangeModel, Seq<RangeSourceModel>)>,
    range: RangeModel,
) -> Option<Seq<char>> {
    let found = named_ranges(persisted, range.range_id, persisted.len());
    if parents != seq![expected_parent] {
        Some("candidate topology changed"@)
    } else if algorithm != range.changeset_algorithm || digest != range.changeset_digest {
        Some("candidate changeset differs from range"@)
    } else if found.len() != 1 {
        Some("trusted range changed"@)
    } else if found[0].1.len() == 0 {
        Some("range has no source snapshots"@)
    } else if found[0].0 != range {
        Some("range payload changed"@)
    } else {
        None
    }
}

fn one_text(list: &Vec<String>, x: &str) -> (r: bool)
    ensures
        r == (list.deep_view() == seq![x@]),
{
    let ghost seen = list.deep_view();
    assert(seen.len() == list@.len());
    if list.len() != 1 {
        return false;
    }
    assert(seen[0] == list@[0]@);
    let r = text_equal(list[0].as_str(), x);
    proof {
        if r {
            assert(seen =~= seq![x@]);
        } else {
            assert(seq![x@][0] == x@);
        }
    }
    r
}

impl ValidatedSquashPlan {
    pub closed spec fn target_spec(self) -> SquashTarget {
        self.target
    }

    pub closed spec fn range_spec(self) -> RangeModel {
        self.range@
    }

    pub closed spec fn sources_spec(self) -> Seq<RangeSourceModel> {
        models::range_source_models(self.sources@)
    }

    pub closed spec fn events_spec(self) -> Seq<EventModel> {
        derivation::models(self.events@)
    }

    /// The plan is about these sources: its events partition them.
    #[verifier::type_invariant]
    spec fn partitions(self) -> bool {
        partition_fault(
            self.target.candidate@,
            self.range@.range_id,
            models::range_source_models(self.sources@),
            derivation::models(self.events@),
        ) is None
    }

    pub fn target(&self) -> (r: &SquashTarget)
        ensures
            *r == self.target_spec(),
    {
        &self.target
    }

    pub fn range(&self) -> (r: &RangeEvidence)
        ensures
            r@ == self.range_spec(),
    {
        &self.range
    }

    pub fn sources(&self) -> (r: &Vec<RangeSourceSnapshot>)
        ensures
            models::range_source_models(r@) == self.sources_spec(),
    {
        &self.sources
    }

    pub fn events(&self) -> (r: &Vec<DerivationEvent>)
        ensures
            derivation::models(r@) == self.events_spec(),
            partition_fault(
                self.target_spec().candidate@,
                self.range_spec().range_id,
                self.sources_spec(),
                derivation::models(r@),
            ) is None,
    {
        proof {
            use_type_invariant(self);
        }
        &self.events
    }

    /// Builds the plan to recognise `target.candidate` as a squash of `range`,
    /// from the candidate's parents and changeset and the trusted ranges with
    /// that changeset.
    pub fn build(
        parents: &Vec<String>,
        change: &ChangesetId,
        persisted: &Vec<TrustedRange>,
        target: SquashTarget,
        range: &RangeEvidence,
    ) -> (r: Result<Self, SquashError>)
        ensures
            ({
                let stored = trusted_models(persisted@);
                let refusal = plan_refusal(
                    parents.deep_view(),
                    target.expected_parent@,
                    change.algorithm@,
                    change.digest@,
                    stored,
                    range@,
                );
                match r {
                    Ok(plan) => {
                        let found = named_ranges(stored, range@.range_id, stored.len());
                        &&& refusal is None
                        &&& plan.target_spec() == target
                        &&& plan.range_spec() == range@
                        &&& plan.sources_spec() == found[0].1
                        &&& plan.events_spec() == squash_events(
                            target.candidate@,
                            range@.range_id,
                            found[0].1,
                        )
                    },
                    Err(e) => refusal is Some && invalidates(e, refusal->0),
                }
            }),
    {
        let ghost stored = trusted_models(persisted@);
        if !one_text(parents, target.expected_parent.as_str()) {
            return Err(SquashError::Invalid("candidate topology changed"));
        }
        if !text_equal(change.algorithm, range.changeset_algorithm.as_str()) || !text_equal(
            change.digest.as_str(),
            range.changeset_digest.as_str(),
        ) {
            return Err(SquashError::Invalid("candidate changeset differs from range"));
        }
        let n: usize = persisted.len();
        let mut count: usize = 0;
        let mut at: usize = 0;
        let mut i: usize = 0;
        while i < n
            invariant
                i <= n,
                n == persisted@.len(),
                count <= i,
                stored == trusted_models(persisted@),
                count == named_ranges(stored, range@.range_id, i as nat).len(),
                count > 0 ==> at < i && stored[at as int] == named_ranges(
                    stored,
                    range@.range_id,
                    i as nat,
                ).last(),
            decreases n - i,
        {
            assert(stored[i as int] == persisted@[i as int]@);
            if text_equal(persisted[i].range.range_id.as_str(), range.range_id.as_str()) {
                count += 1;
                at = i;
            }
            i += 1;
        }
        if count != 1 {
            return Err(SquashError::Invalid("trusted range changed"));
        }
        let held = &persisted[at];
        assert(stored[at as int] == held@);
        assert(named_ranges(stored, range@.range_id, n as nat)[0] == held@);
        if held.sources.len() == 0 {
            return Err(SquashError::Invalid("range has no source snapshots"));
        }
        if !held.range.same(range) {
            return Err(SquashError::Invalid("range payload changed"));
        }
        let events = plan_events(
            target.candidate.as_str(),
            range.range_id.as_str(),
            &held.sources,
        );
        let sources = copy_range_sources(&held.sources);
        proof {
            law_planned_events_partition(
                target.candidate@,
                range@.range_id,
                models::range_source_models(sources@),
            );
        }
        Ok(ValidatedSquashPlan { target, range: held.range.clone(), sources, events })
    }
}

/// A commit that a scan found, the parent it stands on, and whether it can be a
/// squash at all: only a commit with one parent can.
pub struct Discovered {
    pub target: String,
    pub parent: String,
    pub supported: bool,
}

impl View for Discovered {
    type V = (Seq<char>, Seq<char>, bool);

    open spec fn view(&self) -> (Seq<char>, Seq<char>, bool) {
        (self.target@, self.parent@, self.supported)
    }
}

/// The contents of findings.
pub open spec fn discovered_models(s: Seq<Discovered>) -> Seq<(Seq<char>, Seq<char>, bool)> {
    s.map_values(|x: Discovered| x@)
}

/// What a scan does next: it asks for the parents of a commit, or it is done.
pub enum ScanStep {
    Read(String),
    Done(Vec<Discovered>),
}

/// The contents of [`ScanStep`].
#[verifier::ext_equal]
pub enum ScanModel {
    Read(Seq<char>),
    Done(Seq<(Seq<char>, Seq<char>, bool)>),
}

impl View for ScanStep {
    type V = ScanModel;

    open spec fn view(&self) -> ScanModel {
        match self {
            ScanStep::Read(commit) => ScanModel::Read(commit@),
            ScanStep::Done(found) => ScanModel::Done(discovered_models(found@)),
        }
    }
}

/// The finding for a commit with these parents.
pub open spec fn finding(commit: Seq<char>, parents: Seq<Seq<char>>) -> (Seq<char>, Seq<char>, bool) {
    if parents.len() == 1 {
        (commit, parents[0], true)
    } else {
        (commit, Seq::empty(), false)
    }
}

/// The `k`-th commit of the first-parent line from the head, given the parents of
/// the commits before it.
pub open spec fn line_at(head: Seq<char>, chain: Seq<Seq<Seq<char>>>, k: nat) -> Seq<char>
    decreases k,
{
    if k == 0 {
        head
    } else if chain[k - 1].len() == 0 {
        line_at(head, chain, (k - 1) as nat)
    } else {
        chain[k - 1][0]
    }
}

/// The findings of the first `k` commits of the line, the oldest first.
pub open spec fn line_findings(head: Seq<char>, chain: Seq<Seq<Seq<char>>>, k: nat) -> Seq<
    (Seq<char>, Seq<char>, bool),
> {
    Seq::new(
        k,
        |i: int|
            finding(line_at(head, chain, (k - 1 - i) as nat), chain[k - 1 - i]),
    )
}

/// The walk down the first-parent line, from its `k`-th commit on. It ends at the
/// old tip with all findings; where the line ends or is too long, only a head
/// with one parent is found.
pub open spec fn walk(old: Seq<char>, head: Seq<char>, chain: Seq<Seq<Seq<char>>>, k: nat) -> ScanModel
    decreases MAX_SCAN_COMMITS - k,
{
    let at = line_at(head, chain, k);
    if at == old {
        ScanModel::Done(line_findings(head, chain, k))
    } else if k >= MAX_SCAN_COMMITS || (k > 0 && chain[k - 1].len() == 0) {
        ScanModel::Done(
            if chain[0].len() == 1 {
                seq![finding(head, chain[0])]
            } else {
                Seq::empty()
            },
        )
    } else if k >= chain.len() {
        ScanModel::Read(at)
    } else {
        walk(old, head, chain, k + 1)
    }
}

/// What a scan does next, given the cursor, the head and the parents of the
/// commits it has asked for.
pub open spec fn scan_model(
    cursor: Option<Seq<char>>,
    immediate_head: bool,
    head: Seq<char>,
    chain: Seq<Seq<Seq<char>>>,
) -> ScanModel {
    match cursor {
        None => if !immediate_head {
            ScanModel::Done(Seq::empty())
        } else if chain.len() == 0 {
            ScanModel::Read(head)
        } else {
            ScanModel::Done(seq![finding(head, chain[0])])
        },
        Some(old) => walk(old, head, chain, 0),
    }
}

/// The contents of lists of texts.
pub open spec fn chain_model(s: Seq<Vec<String>>) -> Seq<Seq<Seq<char>>> {
    s.map_values(|x: Vec<String>| x.deep_view())
}

fn find(commit: &str, parents: &Vec<String>) -> (r: Discovered)
    ensures
        r@ == finding(commit@, parents.deep_view()),
{
    assert(parents.deep_view().len() == parents@.len());
    if parents.len() == 1 {
        assert(parents.deep_view()[0] == parents@[0]@);
        Discovered { target: commit.to_owned(), parent: parents[0].clone(), supported: true }
    } else {
        let r = Discovered { target: commit.to_owned(), parent: String::new(), supported: false };
        assert(r.parent@ =~= Seq::<char>::empty());
        r
    }
}

/// One step of a scan. `chain` holds the parents of the commits that earlier
/// steps asked for, in the order they were asked for.
pub fn scan_step(
    cursor: Option<&str>,
    immediate_head: bool,
    head: &str,
    chain: &Vec<Vec<String>>,
) -> (r: ScanStep)
    ensures
        r@ == scan_model(
            match cursor {
                Some(c) => Some(c@),
                None => None,
            },
            immediate_head,
            head@,
            chain_model(chain@),
        ),
{
    let ghost all = chain_model(chain@);
    let n: usize = chain.len();
    let old = match cursor {
        None => {
            let mut found: Vec<Discovered> = Vec::new();
            if immediate_head {
                if n == 0 {
                    return ScanStep::Read(head.to_owned());
                }
                assert(all[0] == chain@[0].deep_view());
                found.push(find(head, &chain[0]));
                assert(discovered_models(found@) =~= seq![finding(head@, all[0])]);
            } else {
                assert(discovered_models(found@) =~= Seq::empty());
            }
            return ScanStep::Done(found);
        },
        Some(old) => old,
    };
    let mut at: String = head.to_owned();
    let mut line: Vec<Discovered> = Vec::new();
    let ghost goal = walk(old@, head@, all, 0);
    let mut k: usize = 0;
    assert(discovered_models(line@) =~= line_findings(head@, all, 0));
    loop
        invariant
            k <= n,
            n == chain@.len(),
            k <= MAX_SCAN_COMMITS,
            all == chain_model(chain@),
            at@ == line_at(head@, all, k as nat),
            goal == walk(old@, head@, all, k as nat),
            goal == scan_model(
                match cursor {
                    Some(c) => Some(c@),
                    None => None,
                },
                immediate_head,
                head@,
                all,
            ),
            discovered_models(line@) == line_findings(head@, all, k as nat),
        decreases MAX_SCAN_COMMITS - k,
    {
        if text_equal(at.as_str(), old) {
            return ScanStep::Done(line);
        }
        let mut ended: bool = k >= MAX_SCAN_COMMITS;
        if k > 0 {
            assert(all[k - 1] == chain@[k - 1].deep_view());
            if chain[k - 1].len() == 0 {
                ended = true;
            }
        }
        if ended {
            let mut found: Vec<Discovered> = Vec::new();
            assert(all[0] == chain@[0].deep_view());
            if chain[0].len() == 1 {
                found.push(find(head, &chain[0]));
                assert(discovered_models(found@) =~= seq![finding(head@, all[0])]);
            } else {
                assert(discovered_models(found@) =~= Seq::empty());
            }
            return ScanStep::Done(found);
        }
        if k >= n {
            return ScanStep::Read(at);
        }
        assert(all[k as int] == chain@[k as int].deep_view());
        let ghost held = discovered_models(line@);
        let step = find(at.as_str(), &chain[k]);
        let ghost made = step@;
        line.insert(0, step);
        proof {
            assert(discovered_models(line@) =~= seq![made] + held);
            assert(line_findings(head@, all, (k + 1) as nat) =~= seq![made] + held);
        }
        if chain[k].len() > 0 {
            assert(all[k as int][0] == chain@[k as int]@[0]@);
            at = chain[k][0].clone();
        }
        k += 1;
    }
}

/// The walk reached the old tip: the findings run in an unbroken first-parent
/// line from it to the head, the oldest first.
pub proof fn law_findings_form_a_line(
    old: Seq<char>,
    head: Seq<char>,
    chain: Seq<Seq<Seq<char>>>,
    k: nat,
)
    requires
        k <= chain.len(),
        line_at(head, chain, k) == old,
        forall|i: int| 0 <= i < k ==> (#[trigger] chain[i]).len() > 0,
    ensures
        ({
            let found = line_findings(head, chain, k);
            &&& found.len() == k
            &&& k > 0 ==> found.last().0 == head
            &&& forall|i: int|
                #![trigger found[i]]
                0 <= i < k && found[i].2 ==> found[i].1 == (if i == 0 {
                    old
                } else {
                    found[i - 1].0
                })
        }),
{
    let found = line_findings(head, chain, k);
    assert forall|i: int|
        #![trigger found[i]]
        0 <= i < k && found[i].2 implies found[i].1 == (if i == 0 {
        old
    } else {
        found[i - 1].0
    }) by {
        let j = k - 1 - i;
        assert(chain[j].len() == 1);
        assert(line_at(head, chain, (j + 1) as nat) == chain[j][0]);
        if i > 0 {
            assert(found[i - 1] == finding(line_at(head, chain, (j + 1) as nat), chain[j + 1]));
        }
    }
}

/// Whether a pending target still stands where it was found: it can be read and
/// has that one parent.
pub fn target_stands(parents: &Option<Vec<String>>, parent: &str) -> (r: bool)
    ensures
        r == (parents matches Some(p) && p.deep_view() == seq![parent@]),
{
    match parents {
        Some(p) => one_text(p, parent),
        None => false,
    }
}

/// The range that a target is a squash of: a changeset that several trusted
/// ranges have identifies none of them.
pub fn sole_range<'a>(matching: &'a Vec<TrustedRange>) -> (r: Option<&'a TrustedRange>)
    ensures
        r is Some <==> matching@.len() == 1,
        r matches Some(t) ==> *t == matching@[0],
{
    if matching.len() == 1 {
        Some(&matching[0])
    } else {
        None
    }
}

} // verus!
