use cvc_core::ledger::{
    check_observation, decide_rewrite, event_snapshot, import_event, import_range,
    is_trusted_snapshot, link_snapshot, order_authorizations, queue_targets, EventState,
    RewriteDecision, SourceState, MAX_PENDING_SQUASH_TARGETS,
};
use cvc_core::models::{
    Author, CommitSha, DerivationEvent, DerivationOrigin, DerivationRelation, Evidence,
    EvidenceKind, InteractionId, SourceAuthorizationRow, SourceObservationRow, SourceSnapshot,
    Timestamp, Tombstone, TombstoneReasonCode,
};
use cvc_core::squash::Discovered;
use cvc_core::store::{
    author_name, author_of, automatic_link, check_automatic_batch, check_capture,
    check_remote_redaction, check_share, check_single_link, check_unshare, events_to_remove,
    import_link, interaction_from_row, moment_from, read_sources, reason_name, reason_of,
    request_redaction, tombstone_write, DbError, EventRow, InteractionRow, LinkWrite,
    RedactionRequest, RetryDisposition, RowFault, StoredLink, StoredTombstone, TombstoneWrite,
};

const FIRST: &str = "11111111-1111-4111-8111-111111111111";

fn said(error: DbError) -> String {
    match error {
        DbError::Migration(s) | DbError::InvalidLink(s) | DbError::LinkConflict(s) => s,
        other => format!("{other:?}"),
    }
}

#[test]
fn squash_queue_capacity_is_classified_as_retryable() {
    assert_eq!(
        DbError::SquashQueueCapacity { limit: 1 }.retry_disposition(),
        RetryDisposition::Retryable
    );
    assert_eq!(
        DbError::InvalidLink("invalid squash plan".into()).retry_disposition(),
        RetryDisposition::Permanent
    );
}

#[test]
fn every_other_refusal_has_its_disposition() {
    let text = || "x".to_owned();
    for passing in [DbError::Sqlite(text()), DbError::Io(text()), DbError::LinkConflict(text())] {
        assert_eq!(passing.retry_disposition(), RetryDisposition::Retryable);
    }
    for lasting in [
        DbError::Migration(text()),
        DbError::Timestamp(0),
        DbError::ResidualStorageWarning,
    ] {
        assert_eq!(lasting.retry_disposition(), RetryDisposition::Permanent);
    }
}

#[test]
fn oversized_attributions_are_refused() {
    let huge = "x".repeat(cvc_core::privacy::MAX_TEXT + 1);
    let refused = cvc_core::store::check_single_link("generated", &"a".repeat(40), Some(&huge))
        .expect_err("too large");
    assert!(matches!(&refused, DbError::InvalidLink(_)));
    assert_eq!(refused.retry_disposition(), RetryDisposition::Permanent);
    assert_eq!(said(refused), "capture value exceeds limit");
    let batch = check_automatic_batch(&vec!["generated".into()], &"a".repeat(40), Some(&huge))
        .expect_err("too large");
    assert!(matches!(&batch, DbError::InvalidLink(_)));
    assert_eq!(said(batch), "capture value exceeds limit");
}

fn source_event() -> DerivationEvent {
    let mut e = DerivationEvent {
        event_id: String::new(),
        interaction_id: InteractionId::from_str(FIRST).expect("id"),
        target_commit: CommitSha::new("b".repeat(40)),
        relation: DerivationRelation::RewriteExact,
        evidence: Evidence {
            version: 1,
            kind: EvidenceKind::LocallyObserved,
        },
        origin: DerivationOrigin::LocalHook,
        source_event_ids: vec![format!("legacy:{FIRST}:{}", "a".repeat(40))],
        old_oid: Some(CommitSha::new("a".repeat(40))),
        new_oid: Some(CommitSha::new("b".repeat(40))),
        range_id: None,
        linked_by: None,
    };
    e.event_id = e.canonical_id();
    e
}

fn derived_event(source: &DerivationEvent) -> DerivationEvent {
    let mut e = source_event();
    e.target_commit = CommitSha::new("c".repeat(40));
    e.source_event_ids = vec![source.event_id.clone()];
    e.old_oid = Some(CommitSha::new("b".repeat(40)));
    e.new_oid = Some(CommitSha::new("c".repeat(40)));
    e.event_id = e.canonical_id();
    e
}

fn observation() -> SourceObservationRow {
    SourceObservationRow {
        source_fingerprint: None,
        source_key: "rewrite".into(),
        origin: "local_hook".into(),
        trusted_local: true,
    }
}

fn authorization(event: &DerivationEvent) -> SourceAuthorizationRow {
    SourceAuthorizationRow {
        remote_fingerprint: "f".repeat(64),
        source_event_id: event.event_id.clone(),
    }
}

fn decide(after: SourceSnapshot) -> Result<RewriteDecision, DbError> {
    let source = source_event();
    let before = event_snapshot(
        &source.event_id,
        "{}",
        &vec![observation()],
        &vec![authorization(&source)],
    );
    let event = derived_event(&source);
    let owners = vec![Some(FIRST.to_owned())];
    decide_rewrite(
        &None,
        "rebase",
        "hash",
        &vec![event],
        &vec![EventState {
            owners,
            alive: true,
            stored: None,
            payload: "payload".into(),
        }],
        &vec![before],
        &vec![SourceState {
            decoded: Some(source),
            current: vec![after],
        }],
    )
}

#[test]
fn private_rewrite_cas_rejects_changed_event_observation_and_authorization() {
    let source = source_event();
    for mutation in 0..3 {
        let payload = if mutation == 0 { "{\"changed\":true}" } else { "{}" };
        let observations = if mutation == 1 { vec![] } else { vec![observation()] };
        let authorizations = if mutation == 2 { vec![] } else { vec![authorization(&source)] };
        let after = event_snapshot(&source.event_id, payload, &observations, &authorizations);
        let refused = decide(after);
        assert!(refused.is_err(), "mutation {mutation}");
        if let Err(e) = refused {
            assert_eq!(said(e), "rewrite source changed during preflight");
        }
    }
}

#[test]
fn an_unchanged_source_lets_the_rewrite_through() {
    let source = source_event();
    let same = event_snapshot(
        &source.event_id,
        "{}",
        &vec![observation()],
        &vec![authorization(&source)],
    );
    match decide(same) {
        Ok(RewriteDecision::Write(writes)) => {
            assert_eq!(writes.len(), 1);
            assert!(writes[0].insert);
            assert_eq!(writes[0].authorizations, vec![authorization(&source)]);
        }
        _ => panic!("not written"),
    }
}

#[test]
fn a_batch_is_applied_once() {
    let applied = Some(("rebase".to_owned(), "hash".to_owned()));
    assert!(matches!(
        decide_rewrite(&applied, "rebase", "hash", &vec![], &vec![], &vec![], &vec![]),
        Ok(RewriteDecision::AlreadyApplied)
    ));
    assert!(
        decide_rewrite(&applied, "amend", "hash", &vec![], &vec![], &vec![], &vec![]).is_err()
    );
}

#[test]
fn snapshots_list_their_rows_in_order() {
    let row = |remote: &str| SourceAuthorizationRow {
        remote_fingerprint: remote.into(),
        source_event_id: "e".into(),
    };
    let sorted = order_authorizations(&vec![row("b"), row("a")]);
    assert_eq!(sorted, vec![row("a"), row("b")]);
    match event_snapshot("e", "abc", &vec![observation()], &vec![row("b"), row("a")]) {
        SourceSnapshot::Event {
            canonical_payload_digest,
            authorization_rows,
            ..
        } => {
            assert_eq!(
                canonical_payload_digest,
                "ba7816bf8f01cfea414140de5dae2223b00361a396177a9cb410ff61f20015ad"
            );
            assert_eq!(authorization_rows, sorted);
        }
        SourceSnapshot::Legacy { .. } => panic!("not an event"),
    }
    assert!(is_trusted_snapshot(&event_snapshot("e", "abc", &vec![observation()], &vec![])));
    assert!(!is_trusted_snapshot(&event_snapshot("e", "abc", &vec![], &vec![])));
}

#[test]
fn only_trusted_living_links_give_snapshots() {
    let link = StoredLink {
        link_type: "verified".into(),
        linked_by: None,
    };
    let remotes = vec!["r".to_owned()];
    let commit = "a".repeat(40);
    assert!(link_snapshot(FIRST, &commit, &link, &remotes, true, true).is_some());
    assert!(link_snapshot(FIRST, &commit, &link, &remotes, false, true).is_none());
    assert!(link_snapshot(FIRST, &commit, &link, &remotes, true, false).is_none());
}

#[test]
fn observed_and_imported_evidence_is_checked() {
    let e = source_event();
    assert_eq!(import_event(&e, &None, "p").expect("new"), true);
    assert_eq!(import_event(&e, &Some("p".into()), "p").expect("known"), false);
    assert!(import_event(&e, &Some("q".into()), "p").is_err());
    let mut forged = source_event();
    forged.event_id = "0".repeat(64);
    assert!(import_event(&forged, &None, "p").is_err());
    let mut range = cvc_core::models::RangeEvidence {
        range_id: "0".repeat(64),
        format: "cvc.range/v1".into(),
        version: 1,
        repository_identity: "d".repeat(64),
        object_format: "sha1".into(),
        base_oid: CommitSha::new("a".repeat(40)),
        tip_oid: CommitSha::new("b".repeat(40)),
        base_tree_oid: "1".repeat(40),
        result_tree_oid: "2".repeat(40),
        commits: vec![],
        changeset_algorithm: "cvc.changeset/v1".into(),
        changeset_digest: "c".repeat(64),
    };
    assert!(import_range(&range, &None, "p").is_err());
    assert_eq!(
        said(check_observation(&range, "key", &None, "p").expect_err("no identity")),
        "invalid range evidence"
    );
    range.range_id = range.canonical_id();
    assert_eq!(range.range_id.len(), 64);
}

#[test]
fn queued_targets_keep_their_order_and_limit() {
    let target = || {
        vec![Discovered {
            target: "t".into(),
            parent: "p".into(),
            supported: true,
        }]
    };
    let cursor = Some("c".to_owned());
    let queued = queue_targets(&cursor, &cursor, 0, &vec![false], 4, &target())
        .expect("room")
        .expect("cursor");
    assert_eq!(queued.len(), 1);
    assert_eq!(queued[0].order, 5);
    assert!(queued[0].pending);
    assert!(queue_targets(&cursor, &None, 0, &vec![false], 4, &target())
        .expect("moved")
        .is_none());
    assert!(matches!(
        queue_targets(&cursor, &cursor, MAX_PENDING_SQUASH_TARGETS, &vec![false], 4, &target()),
        Err(DbError::SquashQueueCapacity { limit: MAX_PENDING_SQUASH_TARGETS })
    ));
    assert!(queue_targets(
        &cursor,
        &cursor,
        MAX_PENDING_SQUASH_TARGETS,
        &vec![true],
        4,
        &target()
    )
    .is_ok());
}

#[test]
fn words_of_the_store_are_read_back() {
    for a in [Author::Human, Author::Agent, Author::System, Author::External] {
        assert_eq!(author_of(author_name(a)), a);
    }
    assert_eq!(author_of("whatever"), Author::External);
    for c in [
        TombstoneReasonCode::UserRequested,
        TombstoneReasonCode::Security,
        TombstoneReasonCode::Retention,
    ] {
        assert_eq!(reason_of(reason_name(c)), c);
    }
}

fn row(id: &str, seconds: i64) -> InteractionRow {
    InteractionRow {
        id: id.into(),
        conversation_id: "c".into(),
        parent_id: None,
        timestamp: seconds,
        author: "human".into(),
        user_prompt: "p".into(),
        model_name: None,
        model_cot: None,
        model_response: None,
        source_request_id: None,
    }
}

#[test]
fn stored_rows_are_read() {
    let read = interaction_from_row(row(FIRST, 5)).expect("row");
    assert_eq!(read.id.as_str(), FIRST);
    assert_eq!(read.timestamp, Timestamp { seconds: 5, nanos: 0 });
    assert_eq!(interaction_from_row(row("x", 5)).err(), Some(RowFault::Id));
    assert_eq!(
        interaction_from_row(row(FIRST, i64::MAX)).err(),
        Some(RowFault::Timestamp(i64::MAX))
    );
    assert!(matches!(moment_from(i64::MIN), Err(DbError::Timestamp(i64::MIN))));
    assert_eq!(moment_from(7).expect("moment").seconds, 7);
}

#[test]
fn links_are_written_once_and_never_contradicted() {
    let commit = "a".repeat(40);
    let stored = |kind: &str, by: Option<&str>| {
        Some(StoredLink {
            link_type: kind.into(),
            linked_by: by.map(str::to_owned),
        })
    };
    let me = Some("me".to_owned());
    assert_eq!(
        import_link(&commit, "verified", &None, &None).expect("new"),
        LinkWrite::Insert
    );
    assert_eq!(
        import_link(&commit, "verified", &me, &stored("verified", None)).expect("attributed"),
        LinkWrite::Attribute
    );
    assert_eq!(
        import_link(&commit, "verified", &me, &stored("verified", Some("me"))).expect("same"),
        LinkWrite::Keep
    );
    assert_eq!(
        said(import_link(&commit, "verified", &me, &stored("verified", Some("you")))
            .expect_err("contradiction")),
        "imported link differs from existing provenance"
    );
    assert_eq!(
        said(import_link("x", "verified", &me, &None).expect_err("commit")),
        "invalid imported link"
    );
    let id = InteractionId::from_str(FIRST).expect("id");
    assert_eq!(
        automatic_link(&id, &commit, "temporal", &None, &None).expect("new"),
        LinkWrite::Insert
    );
    assert!(check_automatic_batch(&vec!["generated".into()], &commit, None).is_ok());
    assert!(check_automatic_batch(&vec!["other".into()], &commit, None).is_err());
    assert!(check_single_link("verified", "x", None).is_err());
}

#[test]
fn suppression_records_keep_their_meaning() {
    let id = InteractionId::from_str(FIRST).expect("id");
    let now = Timestamp { seconds: 9, nanos: 77 };
    let t = Tombstone::new(id, TombstoneReasonCode::Security, None, now);
    assert_eq!(t.deleted_at, Timestamp { seconds: 9, nanos: 0 });
    assert_eq!(
        tombstone_write(&None, &t, "sync").expect("new"),
        TombstoneWrite::Insert { published: true }
    );
    let held = |reason: &str, state: &str| {
        Some(StoredTombstone {
            format: "cvc.tombstone/v1".into(),
            version: 1,
            reason: reason.into(),
            previous_node_oid: None,
            state: state.into(),
        })
    };
    let word = reason_name(TombstoneReasonCode::Security);
    assert_eq!(
        tombstone_write(&held(word, "pending"), &t, "sync").expect("seen"),
        TombstoneWrite::Publish
    );
    assert_eq!(
        tombstone_write(&held(word, "published"), &t, "sync").expect("seen"),
        TombstoneWrite::Keep
    );
    assert_eq!(
        said(tombstone_write(&held("other", "pending"), &t, "sync").expect_err("conflict")),
        "tombstone semantic conflict"
    );
    assert!(matches!(
        request_redaction(&id, TombstoneReasonCode::Security, None, true, now),
        Ok(RedactionRequest::Fresh(_))
    ));
    assert!(request_redaction(&id, TombstoneReasonCode::Security, None, false, now).is_err());
    assert!(matches!(
        request_redaction(
            &id,
            TombstoneReasonCode::Security,
            Some((3, word.to_owned(), None)),
            false,
            now
        ),
        Ok(RedactionRequest::Repeat(_))
    ));
}

#[test]
fn removal_follows_the_sources() {
    let id = InteractionId::from_str(FIRST).expect("id");
    let event = |name: &str, owner: &str, sources: &str| EventRow {
        event_id: name.into(),
        interaction: owner.into(),
        sources: sources.into(),
    };
    let gone = events_to_remove(
        &vec![
            event("a", FIRST, "[]"),
            event("c", "other", "[\"b\"]"),
            event("b", "other", "[\"a\"]"),
            event("d", "other", "[\"x\"]"),
        ],
        &id,
    );
    for name in ["a", "b", "c"] {
        assert!(gone.contains(name));
    }
    assert!(!gone.contains("d"));
    assert_eq!(read_sources("[\"x\",\"y\"]"), vec!["x".to_owned(), "y".to_owned()]);
    assert!(read_sources("no list").is_empty());
}

#[test]
fn changes_of_visibility_are_guarded() {
    assert!(check_share(2, &vec![1, 1]).is_ok());
    assert!(check_share(3, &vec![1, 1]).is_err());
    assert!(check_share(2, &vec![1, 0]).is_err());
    assert!(check_unshare(0).is_ok());
    assert!(check_unshare(1).is_err());
    assert!(check_capture(false).is_ok());
    assert_eq!(said(check_capture(true).expect_err("gone")), "interaction is tombstoned");
    assert!(check_remote_redaction(true).is_ok());
    assert!(check_remote_redaction(false).is_err());
}
