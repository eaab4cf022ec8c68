use cvc_core::changeset::{ChangesetError, ChangesetId, ALGORITHM};
use cvc_core::ledger::{decide_squash, queue_targets, EventState, SourceRow, SourceState, SquashState};
use cvc_core::models::{
    CommitSha, DerivationEvent, DerivationOrigin, DerivationRelation, Evidence, EvidenceKind,
    InteractionId, RangeEvidence, RangeMember, RangeObservationOrigin, RangeSourceSnapshot,
    SourceAuthorizationRow, SourceSnapshot,
};
use cvc_core::squash::{
    check_members, check_range, gather_sources, observation_key, range_evidence, range_source,
    repository_identity, scan_step, sole_range, target_stands, validate_events, worktree_key,
    Discovered, RangeFacts, ScanStep, SquashError, SquashTarget, TrustedRange,
    ValidatedSquashPlan, MAX_SCAN_COMMITS,
};
use cvc_core::store::DbError;

fn legacy(interaction: &InteractionId, commit: &str) -> SourceSnapshot {
    SourceSnapshot::Legacy {
        interaction: interaction.as_str(),
        commit: commit.to_owned(),
        link_type: "generated".to_owned(),
        linked_by: None,
        authorization_rows: vec![SourceAuthorizationRow {
            remote_fingerprint: "remote".to_owned(),
            source_event_id: "legacy".to_owned(),
        }],
    }
}

fn source(interaction: &InteractionId, id: &str) -> RangeSourceSnapshot {
    RangeSourceSnapshot {
        interaction_id: *interaction,
        source_id: id.to_owned(),
        snapshot: legacy(interaction, &"a".repeat(40)),
    }
}

fn event(interaction: &InteractionId, ids: Vec<&str>, range: &RangeEvidence) -> DerivationEvent {
    let mut event = DerivationEvent {
        event_id: String::new(),
        interaction_id: *interaction,
        target_commit: CommitSha::new("b".repeat(40)),
        relation: DerivationRelation::SquashExact,
        evidence: Evidence {
            version: 1,
            kind: EvidenceKind::LocallyObserved,
        },
        origin: DerivationOrigin::LocalHook,
        source_event_ids: ids.into_iter().map(str::to_owned).collect(),
        old_oid: None,
        new_oid: None,
        range_id: Some(range.range_id.clone()),
        linked_by: None,
    };
    event.event_id = event.canonical_id();
    event
}

fn range() -> RangeEvidence {
    RangeEvidence {
        range_id: "c".repeat(64),
        format: "cvc.range-evidence/v1".into(),
        version: 1,
        repository_identity: "d".repeat(64),
        object_format: "sha1".into(),
        base_oid: CommitSha::new("1".repeat(40)),
        tip_oid: CommitSha::new("2".repeat(40)),
        base_tree_oid: "3".repeat(40),
        result_tree_oid: "4".repeat(40),
        commits: vec![RangeMember {
            commit_oid: CommitSha::new("2".repeat(40)),
        }],
        changeset_algorithm: ALGORITHM.into(),
        changeset_digest: "e".repeat(64),
    }
}

#[test]
fn event_partition_is_complete_unsplit_and_unique() {
    let range = range();
    assert!(validate_events(&"b".repeat(40), &range, &vec![], &vec![]).is_err());
    let a = InteractionId::new();
    let b = InteractionId::new();
    let sources = vec![source(&a, "a1"), source(&a, "a2"), source(&b, "b1")];
    let good = vec![
        event(&a, vec!["a1", "a2"], &range),
        event(&b, vec!["b1"], &range),
    ];
    assert!(validate_events(&"b".repeat(40), &range, &sources, &good).is_ok());
    let cases = vec![
        vec![],
        vec![event(&a, vec!["a1"], &range), event(&b, vec!["b1"], &range)],
        vec![
            event(&a, vec!["a1"], &range),
            event(&a, vec!["a2"], &range),
            event(&b, vec!["b1"], &range),
        ],
        vec![good[0].clone(), good[0].clone(), good[1].clone()],
        {
            let extra = InteractionId::new();
            vec![
                good[0].clone(),
                good[1].clone(),
                event(&extra, vec!["x"], &range),
            ]
        },
    ];
    for invalid in cases {
        assert!(validate_events(&"b".repeat(40), &range, &sources, &invalid).is_err());
    }
}

fn said(error: SquashError) -> &'static str {
    match error {
        SquashError::Invalid(said) => said,
        _ => "other",
    }
}

fn change(range: &RangeEvidence) -> ChangesetId {
    ChangesetId {
        algorithm: ALGORITHM,
        digest: range.changeset_digest.clone(),
        deltas: 1,
        canonical_bytes: 1,
    }
}

fn target() -> SquashTarget {
    SquashTarget {
        worktree: "w".to_owned(),
        symbolic_ref: "refs/heads/main".to_owned(),
        expected_cursor: "t".repeat(40),
        candidate: "b".repeat(40),
        expected_parent: "p".repeat(40),
        expected_head: "t".repeat(40),
    }
}

fn interaction() -> InteractionId {
    InteractionId::from_uuid(9)
}

fn observed() -> (RangeEvidence, Vec<RangeSourceSnapshot>) {
    let id = interaction();
    let one = range_source(&id, &legacy(&id, &"a".repeat(40)));
    (range(), vec![one])
}

fn trusted() -> TrustedRange {
    let (range, sources) = observed();
    TrustedRange { range, sources }
}

#[test]
fn digest_mismatch_and_source_race_leave_target_pending() {
    let (range, sources) = observed();
    let parents = vec!["p".repeat(40)];
    let wrong = ChangesetId {
        algorithm: ALGORITHM,
        digest: "f".repeat(64),
        deltas: 1,
        canonical_bytes: 1,
    };
    assert!(
        ValidatedSquashPlan::build(&parents, &wrong, &vec![trusted()], target(), &range).is_err()
    );
    let plan = ValidatedSquashPlan::build(
        &parents,
        &change(&range),
        &vec![trusted()],
        target(),
        &range,
    )
    .expect("plan");
    let quiet = state(&plan, &sources);
    assert_eq!(decide_squash(&plan, &quiet).expect("unchanged").len(), 1);
    // Another source joins the range before the plan is applied.
    let mut raced = state(&plan, &sources);
    raced.rows.push(SourceRow {
        interaction: InteractionId::new().as_str(),
        source_id: "race".to_owned(),
        snapshot: "{}".to_owned(),
    });
    assert!(decide_squash(&plan, &raced).is_err());
}

fn state(plan: &ValidatedSquashPlan, sources: &[RangeSourceSnapshot]) -> SquashState {
    SquashState {
        cursor: Some("t".repeat(40)),
        head_name: Some("refs/heads/main".to_owned()),
        head_commit: Some("t".repeat(40)),
        parents: Some(vec!["p".repeat(40)]),
        range_stored: "range".to_owned(),
        range_payload: "range".to_owned(),
        rows: sources
            .iter()
            .map(|s| SourceRow {
                interaction: s.interaction_id.as_str(),
                source_id: s.source_id.clone(),
                snapshot: "snapshot".to_owned(),
            })
            .collect(),
        encoded: sources.iter().map(|_| "snapshot".to_owned()).collect(),
        sources: sources
            .iter()
            .map(|s| SourceState {
                decoded: None,
                current: vec![s.snapshot.clone()],
            })
            .collect(),
        events: plan
            .events()
            .iter()
            .map(|_| EventState {
                owners: vec![],
                alive: true,
                stored: None,
                payload: "event".to_owned(),
            })
            .collect(),
        pending_parent: "p".repeat(40),
    }
}

#[test]
fn a_plan_has_one_event_over_all_sources_of_an_interaction() {
    let (range, sources) = observed();
    let plan = ValidatedSquashPlan::build(
        &vec!["p".repeat(40)],
        &change(&range),
        &vec![trusted()],
        target(),
        &range,
    )
    .expect("plan");
    assert_eq!(plan.events().len(), 1);
    let event = &plan.events()[0];
    assert!(event.verify_id());
    assert_eq!(event.interaction_id, interaction());
    assert_eq!(event.source_event_ids, vec![sources[0].source_id.clone()]);
    assert_eq!(event.range_id, Some(range.range_id.clone()));
    assert_eq!(plan.target().candidate, "b".repeat(40));
    assert!(plan.range().same(&range));
    assert_eq!(plan.sources().len(), 1);
    let writes = decide_squash(&plan, &state(&plan, &sources)).expect("writes");
    assert!(writes[0].insert);
    assert_eq!(writes[0].authorizations[0].remote_fingerprint, "remote");
}

#[test]
fn a_plan_names_why_it_is_refused() {
    let (range, _) = observed();
    let ok = vec!["p".repeat(40)];
    let build = |parents: &Vec<String>, persisted: &Vec<TrustedRange>| {
        match ValidatedSquashPlan::build(parents, &change(&range), persisted, target(), &range) {
            Ok(_) => "ok",
            Err(e) => said(e),
        }
    };
    assert_eq!(build(&vec![], &vec![trusted()]), "candidate topology changed");
    assert_eq!(build(&ok, &vec![]), "trusted range changed");
    assert_eq!(build(&ok, &vec![trusted(), trusted()]), "trusted range changed");
    let empty = TrustedRange { range: range.clone(), sources: vec![] };
    assert_eq!(build(&ok, &vec![empty]), "range has no source snapshots");
    let mut other = trusted();
    other.range.base_tree_oid = "9".repeat(40);
    assert_eq!(build(&ok, &vec![other]), "range payload changed");
    assert_eq!(build(&ok, &vec![trusted()]), "ok");
}

fn conflict(result: Result<Vec<cvc_core::ledger::EventWrite>, DbError>) -> String {
    match result {
        Err(DbError::LinkConflict(said)) => said,
        Err(DbError::InvalidLink(said)) => said,
        _ => "other".to_owned(),
    }
}

#[test]
fn a_squash_is_abandoned_when_anything_changed() {
    let (range, sources) = observed();
    let plan = ValidatedSquashPlan::build(
        &vec!["p".repeat(40)],
        &change(&range),
        &vec![trusted()],
        target(),
        &range,
    )
    .expect("plan");
    let with = |edit: fn(&mut SquashState)| {
        let mut s = state(&plan, &sources);
        edit(&mut s);
        conflict(decide_squash(&plan, &s))
    };
    assert_eq!(with(|s| s.cursor = None), "squash cursor or HEAD changed");
    assert_eq!(with(|s| s.head_name = None), "squash cursor or HEAD changed");
    assert_eq!(with(|s| s.head_commit = None), "squash cursor or HEAD changed");
    assert_eq!(with(|s| s.parents = Some(vec![])), "squash cursor or HEAD changed");
    assert_eq!(with(|s| s.range_stored = String::new()), "squash range changed");
    assert_eq!(with(|s| s.rows.clear()), "complete squash source set changed");
    assert_eq!(with(|s| s.sources[0].current.clear()), "squash source changed");
    assert_eq!(with(|s| s.events[0].alive = false), "squash source tombstoned");
    assert_eq!(
        with(|s| s.events[0].stored = Some("else".to_owned())),
        "squash event conflict"
    );
    assert_eq!(
        with(|s| s.pending_parent = String::new()),
        "squash topology snapshot changed"
    );
}

#[test]
fn a_range_needs_a_strict_ancestor_and_a_unique_merge_base() {
    let one = vec!["base".to_owned()];
    assert!(check_range("base", "tip", true, &one).is_ok());
    assert_eq!(
        said(check_range("base", "base", true, &one).expect_err("same")),
        "base must be a strict ancestor of tip"
    );
    assert_eq!(
        said(check_range("base", "tip", false, &one).expect_err("apart")),
        "base must be a strict ancestor of tip"
    );
    assert_eq!(
        said(check_range("base", "tip", true, &vec![]).expect_err("none")),
        "range requires a unique merge base equal to base"
    );
    assert!(check_members(1).is_ok());
    assert_eq!(said(check_members(0).expect_err("empty")), "empty range");
    assert_eq!(
        said(check_members(2049).expect_err("long")),
        "commit membership bound"
    );
}

#[test]
fn range_evidence_carries_its_own_identity() {
    let facts = RangeFacts {
        repository_identity: repository_identity(b"/repo/.git"),
        base: "1".repeat(40),
        tip: "2".repeat(40),
        base_tree: "3".repeat(40),
        tip_tree: "4".repeat(40),
        commits: vec!["2".repeat(40)],
    };
    let evidence = range_evidence(&facts, &change(&range()));
    assert!(evidence.verify_id());
    assert_eq!(evidence.commits.len(), 1);
    assert_ne!(facts.repository_identity, worktree_key(b"/repo/.git"));
    assert_eq!(
        worktree_key(b"abc"),
        "ba7816bf8f01cfea414140de5dae2223b00361a396177a9cb410ff61f20015ad"
    );
}

#[test]
fn observation_keys_say_how_and_where() {
    assert_eq!(
        observation_key(RangeObservationOrigin::Explicit, None, None),
        "explicit:local:detached"
    );
    assert_eq!(
        observation_key(RangeObservationOrigin::PrePush, Some("origin"), Some("main")),
        "pre-push:origin:main"
    );
}

#[test]
fn sources_are_gathered_in_order_and_once() {
    let a = InteractionId::from_uuid(1);
    let b = InteractionId::from_uuid(2);
    let found = vec![source(&b, "b1"), source(&a, "a2"), source(&a, "a1"), source(&a, "a2")];
    let gathered = gather_sources(&found);
    let names: Vec<&str> = gathered.iter().map(|s| s.source_id.as_str()).collect();
    assert_eq!(names, vec!["a1", "a2", "b1"]);
}

fn done(step: ScanStep) -> Vec<(String, String, bool)> {
    match step {
        ScanStep::Done(found) => found
            .into_iter()
            .map(|d| (d.target, d.parent, d.supported))
            .collect(),
        ScanStep::Read(commit) => panic!("asked for {commit}"),
    }
}

#[test]
fn a_scan_walks_the_first_parent_line_back_to_its_cursor() {
    let mut chain: Vec<Vec<String>> = vec![];
    let mut asked = vec![];
    let found = loop {
        match scan_step(Some("c0"), false, "c3", &chain) {
            ScanStep::Read(commit) => {
                asked.push(commit.clone());
                chain.push(match commit.as_str() {
                    "c3" => vec!["c2".to_owned()],
                    "c2" => vec!["c1".to_owned(), "side".to_owned()],
                    _ => vec!["c0".to_owned()],
                });
            }
            step => break done(step),
        }
    };
    assert_eq!(asked, vec!["c3", "c2", "c1"]);
    let expected = vec![
        ("c1".to_owned(), "c0".to_owned(), true),
        ("c2".to_owned(), String::new(), false),
        ("c3".to_owned(), "c2".to_owned(), true),
    ];
    assert_eq!(found, expected);
}

#[test]
fn a_scan_that_loses_its_cursor_restarts_at_the_head() {
    let chain = vec![vec!["c1".to_owned()], vec![]];
    assert_eq!(
        done(scan_step(Some("gone"), false, "c2", &chain)),
        vec![("c2".to_owned(), "c1".to_owned(), true)]
    );
    let merge = vec![vec!["a".to_owned(), "b".to_owned()], vec![]];
    assert!(done(scan_step(Some("gone"), false, "m", &merge)).is_empty());
    assert!(done(scan_step(Some("c2"), false, "c2", &vec![])).is_empty());
    assert!(done(scan_step(None, false, "c2", &vec![])).is_empty());
    assert_eq!(
        done(scan_step(None, true, "c2", &vec![vec!["c1".to_owned()]])),
        vec![("c2".to_owned(), "c1".to_owned(), true)]
    );
    let long: Vec<Vec<String>> = (0..MAX_SCAN_COMMITS).map(|i| vec![format!("p{i}")]).collect();
    assert_eq!(done(scan_step(Some("gone"), false, "h", &long)).len(), 1);
}

#[test]
fn pending_targets_must_stand_and_match_one_range() {
    assert!(target_stands(&Some(vec!["p".to_owned()]), "p"));
    assert!(!target_stands(&Some(vec!["q".to_owned()]), "p"));
    assert!(!target_stands(&None, "p"));
    assert!(sole_range(&vec![trusted()]).is_some());
    assert!(sole_range(&vec![]).is_none());
    assert!(sole_range(&vec![trusted(), trusted()]).is_none());
}

fn finding(name: &str, supported: bool) -> Discovered {
    Discovered {
        target: name.to_owned(),
        parent: "p".to_owned(),
        supported,
    }
}

#[test]
fn the_queue_of_targets_is_bounded() {
    let cursor = Some("c".to_owned());
    let targets = vec![finding("a", true), finding("b", false)];
    let queue = queue_targets(&cursor, &cursor, 10, &vec![false, true], 5, &targets)
        .expect("room")
        .expect("cursor");
    assert_eq!(queue[0].order, 6);
    assert!(queue[0].pending);
    assert_eq!(queue[1].order, 7);
    assert!(!queue[1].pending);
    assert!(queue_targets(&cursor, &None, 10, &vec![false, false], 5, &targets)
        .expect("no error")
        .is_none());
    assert!(matches!(
        queue_targets(&cursor, &cursor, 4096, &vec![false, false], 5, &targets),
        Err(DbError::SquashQueueCapacity { limit: 4096 })
    ));
    assert!(queue_targets(&cursor, &cursor, 4096, &vec![true, true], 5, &targets).is_ok());
}

#[test]
fn refusals_of_a_range_are_told_in_words() {
    assert_eq!(
        SquashError::Changeset(ChangesetError::Bound("files")).message(),
        "changeset: changeset bound exceeded: files"
    );
    assert_eq!(ChangesetError::Git("x".to_owned()).message(), "git: x");
    assert_eq!(ChangesetError::Delta.message(), "unsupported diff delta");
    assert_eq!(ChangesetError::ObjectFormat.message(), "unsupported Git object format");
    assert_eq!(ChangesetError::Deadline.message(), "changeset deadline exceeded");
    assert_eq!(SquashError::Git("x".to_owned()).message(), "git: x");
    assert_eq!(SquashError::Db("x".to_owned()).message(), "db: x");
    assert_eq!(SquashError::Invalid("head").message(), "invalid range: head");
    assert_eq!(SquashError::Deadline.message(), "squash operation deadline exceeded");
}
