//! What a rewrite carries over: every interaction that this repository observed on a
//! replaced commit goes to the commit that replaced it, and nothing else does.

use crate::derivation;
use crate::digest;
use crate::models;
use crate::models::{
    DerivationOrigin, DerivationRelation, EventModel, EvidenceKind, InteractionId, SnapshotModel,
};
use crate::rewrite;
use crate::rewrite::{RewriteBatch, RewriteFactsModel, RewriteMode, RewriteSourceModel};
use vstd::prelude::*;
use vstd::string::*;
use vstd::utf8::*;

verus! {

proof fn lemma_pair_sizes(
    pair: (Seq<char>, Seq<char>),
    sources: Seq<RewriteSourceModel>,
    n: nat,
)
    requires
        n <= sources.len(),
    ensures
        rewrite::pair_events(pair, sources, n).len() == rewrite::pair_snapshots(sources, n).len(),
        rewrite::pair_snapshots(sources, n).len() == sources.take(n as int).fold_left(
            0int,
            |sum: int, s: RewriteSourceModel|
                if s.observed {
                    sum + s.snapshots.len()
                } else {
                    sum
                },
        ),
    decreases n,
{
    let add = |sum: int, s: RewriteSourceModel|
        if s.observed {
            sum + s.snapshots.len()
        } else {
            sum
        };
    reveal(Seq::fold_left);
    if n > 0 {
        lemma_pair_sizes(pair, sources, (n - 1) as nat);
        let now = sources.take(n as int);
        assert(now.drop_last() =~= sources.take(n - 1));
        assert(now.last() == sources[n - 1]);
    }
}

proof fn lemma_batch_sizes(facts: Seq<RewriteFactsModel>, n: nat)
    requires
        n <= facts.len(),
    ensures
        rewrite::batch_events(facts, n).len() == rewrite::batch_snapshots(facts, n).len(),
        rewrite::batch_snapshots(facts, n).len() == facts.take(n as int).fold_left(
            0int,
            |sum: int, f: RewriteFactsModel|
                sum + f.sources.fold_left(
                    0int,
                    |part: int, s: RewriteSourceModel|
                        if s.observed {
                            part + s.snapshots.len()
                        } else {
                            part
                        },
                ),
        ),
    decreases n,
{
    reveal(Seq::fold_left);
    if n > 0 {
        lemma_batch_sizes(facts, (n - 1) as nat);
        let now = facts.take(n as int);
        let f = facts[n - 1];
        assert(now.drop_last() =~= facts.take(n - 1));
        assert(now.last() == f);
        lemma_pair_sizes(f.pair, f.sources, f.sources.len());
        assert(f.sources.take(f.sources.len() as int) =~= f.sources);
    }
}

/// Where the snapshot of an observed interaction stands among those of its commit.
proof fn lemma_pair_place(
    pair: (Seq<char>, Seq<char>),
    sources: Seq<RewriteSourceModel>,
    n: nat,
    j: int,
    m: int,
) -> (at: int)
    requires
        0 <= j < n <= sources.len(),
        sources[j].observed,
        0 <= m < sources[j].snapshots.len(),
    ensures
        0 <= at < rewrite::pair_events(pair, sources, n).len(),
        at < rewrite::pair_snapshots(sources, n).len(),
        rewrite::pair_snapshots(sources, n)[at] == sources[j].snapshots[m],
        rewrite::pair_events(pair, sources, n)[at] == rewrite::rewrite_event(
            pair,
            sources[j].interaction,
            rewrite::snapshot_source(sources[j].snapshots[m]),
        ),
    decreases n,
{
    lemma_pair_sizes(pair, sources, (n - 1) as nat);
    if j == n - 1 {
        rewrite::pair_events(pair, sources, (n - 1) as nat).len() + m
    } else {
        lemma_pair_place(pair, sources, (n - 1) as nat, j, m)
    }
}

/// What an event of a commit comes from.
proof fn lemma_pair_origin(
    pair: (Seq<char>, Seq<char>),
    sources: Seq<RewriteSourceModel>,
    n: nat,
    at: int,
) -> (place: (int, int))
    requires
        n <= sources.len(),
        0 <= at < rewrite::pair_events(pair, sources, n).len(),
    ensures
        0 <= place.0 < n,
        sources[place.0].observed,
        0 <= place.1 < sources[place.0].snapshots.len(),
        at < rewrite::pair_snapshots(sources, n).len(),
        rewrite::pair_snapshots(sources, n)[at] == sources[place.0].snapshots[place.1],
        rewrite::pair_events(pair, sources, n)[at] == rewrite::rewrite_event(
            pair,
            sources[place.0].interaction,
            rewrite::snapshot_source(sources[place.0].snapshots[place.1]),
        ),
    decreases n,
{
    lemma_pair_sizes(pair, sources, (n - 1) as nat);
    let before = rewrite::pair_events(pair, sources, (n - 1) as nat);
    if at < before.len() {
        lemma_pair_origin(pair, sources, (n - 1) as nat, at)
    } else {
        (n - 1, at - before.len())
    }
}

proof fn lemma_batch_place(facts: Seq<RewriteFactsModel>, n: nat, k: int, j: int, m: int) -> (at:
    int)
    requires
        0 <= k < n <= facts.len(),
        0 <= j < facts[k].sources.len(),
        facts[k].sources[j].observed,
        0 <= m < facts[k].sources[j].snapshots.len(),
    ensures
        0 <= at < rewrite::batch_events(facts, n).len(),
        at < rewrite::batch_snapshots(facts, n).len(),
        rewrite::batch_snapshots(facts, n)[at] == facts[k].sources[j].snapshots[m],
        rewrite::batch_events(facts, n)[at] == rewrite::rewrite_event(
            facts[k].pair,
            facts[k].sources[j].interaction,
            rewrite::snapshot_source(facts[k].sources[j].snapshots[m]),
        ),
    decreases n,
{
    lemma_batch_sizes(facts, (n - 1) as nat);
    if k == n - 1 {
        let f = facts[k];
        let at = lemma_pair_place(f.pair, f.sources, f.sources.len(), j, m);
        rewrite::batch_events(facts, (n - 1) as nat).len() + at
    } else {
        lemma_batch_place(facts, (n - 1) as nat, k, j, m)
    }
}

proof fn lemma_batch_origin(facts: Seq<RewriteFactsModel>, n: nat, at: int) -> (place: (
    int,
    int,
    int,
))
    requires
        n <= facts.len(),
        0 <= at < rewrite::batch_events(facts, n).len(),
    ensures
        0 <= place.0 < n,
        0 <= place.1 < facts[place.0].sources.len(),
        facts[place.0].sources[place.1].observed,
        0 <= place.2 < facts[place.0].sources[place.1].snapshots.len(),
        at < rewrite::batch_snapshots(facts, n).len(),
        rewrite::batch_snapshots(facts, n)[at]
            == facts[place.0].sources[place.1].snapshots[place.2],
        rewrite::batch_events(facts, n)[at] == rewrite::rewrite_event(
            facts[place.0].pair,
            facts[place.0].sources[place.1].interaction,
            rewrite::snapshot_source(facts[place.0].sources[place.1].snapshots[place.2]),
        ),
    decreases n,
{
    lemma_batch_sizes(facts, (n - 1) as nat);
    let before = rewrite::batch_events(facts, (n - 1) as nat);
    let f = facts[n - 1];
    if at < before.len() {
        lemma_batch_origin(facts, (n - 1) as nat, at)
    } else {
        lemma_pair_sizes(f.pair, f.sources, f.sources.len());
        let (j, m) = lemma_pair_origin(f.pair, f.sources, f.sources.len(), at - before.len());
        (n - 1, j, m)
    }
}

/// Every interaction that was observed on a replaced commit is carried over: for each
/// replaced commit, each observed interaction on it and each snapshot of that
/// interaction there is an event that puts the interaction on the new commit, names
/// the old and the new one and draws on the source of that snapshot alone; and the
/// snapshot is kept beside it, to be held against the store.
pub proof fn law_observed_sources_are_carried_over(
    batch: RewriteBatch,
    kind: RewriteMode,
    raw: Seq<u8>,
    facts: Seq<RewriteFactsModel>,
    k: int,
    j: int,
    m: int,
)
    requires
        batch.answers(kind, raw, facts),
        0 <= k < facts.len(),
        0 <= j < facts[k].sources.len(),
        facts[k].sources[j].observed,
        0 <= m < facts[k].sources[j].snapshots.len(),
    ensures
        exists|at: int|
            {
                let e = (#[trigger] batch.events@[at])@;
                &&& 0 <= at < batch.events@.len() == batch.snapshots@.len()
                &&& batch.snapshots@[at]@ == facts[k].sources[j].snapshots[m]
                &&& e.interaction_id == facts[k].sources[j].interaction
                &&& e.target_commit == facts[k].pair.1
                &&& e.old_oid == Some(facts[k].pair.0)
                &&& e.new_oid == Some(facts[k].pair.1)
                &&& e.sources == seq![
                    match facts[k].sources[j].snapshots[m] {
                        SnapshotModel::Legacy { interaction, commit, .. } => "legacy:"@ + interaction
                            + ":"@ + commit,
                        SnapshotModel::Event { event_id, .. } => event_id,
                    },
                ]
                &&& e.relation == DerivationRelation::RewriteExact
                &&& e.evidence.kind == EvidenceKind::LocallyObserved
                &&& e.evidence.version == 1
                &&& e.origin == DerivationOrigin::LocalHook
                &&& e.range_id is None
                &&& e.linked_by is None
                &&& e.event_id == models::event_identity(e)
            },
{
    let events = derivation::models(batch.events@);
    let snapshots = rewrite::snapshot_models(batch.snapshots@);
    let at = lemma_batch_place(facts, facts.len(), k, j, m);
    lemma_batch_sizes(facts, facts.len());
    assert(events[at] == batch.events@[at]@);
    assert(snapshots[at] == batch.snapshots@[at]@);
    lemma_event_identified(
        facts[k].pair,
        facts[k].sources[j].interaction,
        rewrite::snapshot_source(facts[k].sources[j].snapshots[m]),
    );
}

proof fn lemma_event_identified(
    pair: (Seq<char>, Seq<char>),
    interaction: InteractionId,
    source: Seq<char>,
)
    ensures
        ({
            let e = rewrite::rewrite_event(pair, interaction, source);
            e.event_id == models::event_identity(e)
        }),
{
    let e = rewrite::rewrite_event(pair, interaction, source);
    let bare = EventModel { event_id: Seq::empty(), ..e };
    assert(e == rewrite::identified(bare));
    crate::encoding::law_event_identity_ignores_source_order(e, bare);
}

/// Nothing else is carried over: each event of a batch stands for one snapshot of an
/// interaction that was observed on a replaced commit, and for that commit's
/// replacement; and there are as many events as such snapshots.
pub proof fn law_nothing_else_is_carried_over(
    batch: RewriteBatch,
    kind: RewriteMode,
    raw: Seq<u8>,
    facts: Seq<RewriteFactsModel>,
)
    requires
        batch.answers(kind, raw, facts),
    ensures
        forall|at: int|
            0 <= at < batch.events@.len() ==> exists|k: int, j: int, m: int|
                {
                    &&& 0 <= k < facts.len()
                    &&& 0 <= j < facts[k].sources.len()
                    &&& facts[k].sources[j].observed
                    &&& 0 <= m < facts[k].sources[j].snapshots.len()
                    &&& batch.snapshots@[at]@ == #[trigger] facts[k].sources[j].snapshots[m]
                    &&& (#[trigger] batch.events@[at])@.interaction_id
                        == facts[k].sources[j].interaction
                    &&& batch.events@[at]@.target_commit == facts[k].pair.1
                    &&& batch.events@[at]@.old_oid == Some(facts[k].pair.0)
                    &&& batch.events@[at]@.new_oid == Some(facts[k].pair.1)
                },
        batch.events@.len() == batch.snapshots@.len(),
        batch.events@.len() == facts.fold_left(
            0int,
            |sum: int, f: RewriteFactsModel|
                sum + f.sources.fold_left(
                    0int,
                    |part: int, s: RewriteSourceModel|
                        if s.observed {
                            part + s.snapshots.len()
                        } else {
                            part
                        },
                ),
        ),
{
    let events = derivation::models(batch.events@);
    let snapshots = rewrite::snapshot_models(batch.snapshots@);
    lemma_batch_sizes(facts, facts.len());
    assert(facts.take(facts.len() as int) =~= facts);
    assert forall|at: int| 0 <= at < batch.events@.len() implies exists|k: int, j: int, m: int|
        {
            &&& 0 <= k < facts.len()
            &&& 0 <= j < facts[k].sources.len()
            &&& facts[k].sources[j].observed
            &&& 0 <= m < facts[k].sources[j].snapshots.len()
            &&& batch.snapshots@[at]@ == #[trigger] facts[k].sources[j].snapshots[m]
            &&& (#[trigger] batch.events@[at])@.interaction_id == facts[k].sources[j].interaction
            &&& batch.events@[at]@.target_commit == facts[k].pair.1
            &&& batch.events@[at]@.old_oid == Some(facts[k].pair.0)
            &&& batch.events@[at]@.new_oid == Some(facts[k].pair.1)
        } by {
        let (k, j, m) = lemma_batch_origin(facts, facts.len(), at);
        assert(events[at] == batch.events@[at]@);
        assert(snapshots[at] == batch.snapshots@[at]@);
        assert(batch.snapshots@[at]@ == facts[k].sources[j].snapshots[m]);
    }
}

/// A batch goes by its notice: by the mode and every byte of it.
pub proof fn law_batch_goes_by_its_notice(
    batch: RewriteBatch,
    kind: RewriteMode,
    raw: Seq<u8>,
    facts: Seq<RewriteFactsModel>,
)
    requires
        batch.answers(kind, raw, facts),
    ensures
        batch.mode == kind,
        batch.input_hash@ == digest::digest_text(raw),
        batch.batch_id@ == digest::digest_text(
            encode_utf8("cvc.rewrite-batch/v1\0"@) + encode_utf8(
                if kind is Amend {
                    "amend"@
                } else {
                    "rebase"@
                },
            ) + raw,
        ),
{
}

} // verus!
