use cvc_core::models::{
    CommitSha, DerivationOrigin, DerivationRelation, EvidenceKind, InteractionId, SourceSnapshot,
};
use cvc_core::rewrite::{
    admit_existing, admit_new, apply, apply_replay, check_inbox_directory, check_private_file,
    frame, inbox_file_name, inbox_temporary_name, is_active_entry, is_stale_temporary, parse,
    quarantine_evictions, unframe, validate_initial_delivery, Admission, RewriteError,
    RewriteFacts, RewriteMode, RewritePair, RewriteSource, MAX_REWRITE_BYTES, MAX_REWRITE_PAIRS,
};

const A: &str = "aaaaaaaaaaaaaaaaaaaaaaaaaaaaaaaaaaaaaaaa";
const B: &str = "bbbbbbbbbbbbbbbbbbbbbbbbbbbbbbbbbbbbbbbb";

fn reason(error: RewriteError) -> &'static str {
    match error {
        RewriteError::Permanent(said) => said,
        RewriteError::Retryable(said) => said,
        _ => "other",
    }
}

#[test]
fn parser_requires_exact_git_record_framing() {
    assert!(parse("amend", format!("{A} {B}\n").as_bytes()).is_ok());
    assert!(parse(
        "amend",
        b"a0aaaaaaaaaaaaaaaaaaaaaaaaaaaaaaaaaaaaaa bbbbbbbbbbbbbbbbbbbbbbbbbbbbbbbbbbbbbbbb\n"
    )
    .is_ok());
    for raw in [
        format!("{A} {B}"),
        format!("{A}  {B}\n"),
        format!("{A}\t{B}\n"),
        format!("{A} {B}\n\n"),
        format!("{A} {A}\n"),
        format!("{} {B}\n", "0".repeat(40)),
        format!("{A} {B}\n{A} {B}\n"),
    ] {
        assert!(parse("rebase", raw.as_bytes()).is_err(), "accepted {raw:?}");
    }
    assert!(parse("rebase", b"").is_err());
    assert!(parse("amend", b"\xff\n").is_err());
    assert!(parse("amend", format!("{} {B}\n", "A".repeat(40)).as_bytes()).is_err());
    assert!(parse("fixup", format!("{A} {B}\n").as_bytes()).is_err());
}

#[test]
fn the_order_of_lines_means_nothing() {
    let c = "c".repeat(40);
    let straight = format!("{A} {B}\n{B} {c}\n");
    let swapped = format!("{B} {c}\n{A} {B}\n");
    let (mode, pairs) = parse("rebase", swapped.as_bytes()).expect("notice");
    assert_eq!(parse("rebase", straight.as_bytes()).expect("notice"), (mode, pairs.clone()));
    let written: String = pairs
        .iter()
        .map(|p| format!("{} {}\n", p.old.as_str(), p.new.as_str()))
        .collect();
    assert_eq!(written, straight);
    assert_eq!(parse("rebase", written.as_bytes()).expect("notice"), (mode, pairs));
}

#[test]
fn only_typed_validation_errors_are_permanent() {
    assert!(parse("fixup", format!("{A} {B}\n").as_bytes())
        .expect_err("invalid mode")
        .is_permanent());
    let error = RewriteError::Io("/definitely/missing/cvc-inbox-entry: missing file".to_owned());
    assert!(!error.is_permanent(), "I/O failures remain retryable");
    assert!(!RewriteError::Retryable("quota").is_permanent());
    assert!(!RewriteError::Git(String::new()).is_permanent());
    assert!(!RewriteError::Db(String::new()).is_permanent());
}

#[test]
fn accepted_pairs_are_sorted_and_distinct() {
    let c = "c".repeat(40);
    let d = "d".repeat(40);
    let raw = format!("{c} {d}\n{A} {B}\n{B} {c}\n");
    let (mode, pairs) = parse("rebase", raw.as_bytes()).expect("valid");
    assert_eq!(mode, RewriteMode::Rebase);
    let olds: Vec<&str> = pairs.iter().map(|p| p.old.as_str()).collect();
    assert_eq!(olds, vec![A, B, c.as_str()]);
    let news: Vec<&str> = pairs.iter().map(|p| p.new.as_str()).collect();
    assert_eq!(news, vec![B, c.as_str(), d.as_str()]);
}

#[test]
fn every_refusal_names_its_reason() {
    let refuse = |mode: &str, raw: &str| reason(parse(mode, raw.as_bytes()).expect_err("refused"));
    assert_eq!(refuse("squash", "x\n"), "mode must be amend or rebase");
    assert_eq!(refuse("rebase", "x"), "input limit or forbidden byte");
    assert_eq!(refuse("rebase", "x\r\n"), "input limit or forbidden byte");
    assert_eq!(refuse("rebase", "x\0\n"), "input limit or forbidden byte");
    assert_eq!(
        reason(parse("rebase", &vec![10u8; MAX_REWRITE_BYTES + 1]).expect_err("long")),
        "input limit or forbidden byte"
    );
    assert_eq!(
        reason(parse("rebase", b"\xff\n").expect_err("bytes")),
        "not utf8"
    );
    assert_eq!(refuse("rebase", "\n"), "blank line");
    assert_eq!(
        refuse("rebase", &format!("{A}\n")),
        "expected two lowercase full matching-width oids"
    );
    assert_eq!(
        refuse("rebase", &format!("{A} {}\n", "b".repeat(64))),
        "expected two lowercase full matching-width oids"
    );
    assert_eq!(
        refuse("rebase", &format!("{A} {A}\n")),
        "old and new oid must differ"
    );
    assert_eq!(
        refuse("rebase", &format!("{A} {B}\n{A} {B}\n")),
        "duplicate old oid"
    );
    assert_eq!(
        refuse("amend", &format!("{A} {B}\n{B} {A}\n")),
        "amend requires exactly one pair"
    );
    let mut many = String::new();
    for i in 0..MAX_REWRITE_PAIRS + 1 {
        many.push_str(&format!("{:040x} {B}\n", i + 1));
    }
    assert_eq!(refuse("rebase", &many), "too many pairs");
}

fn facts(reachable: bool, observed: bool) -> Vec<RewriteFacts> {
    let interaction = InteractionId::from_uuid(7);
    vec![RewriteFacts {
        pair: RewritePair {
            old: CommitSha::new(A.to_owned()),
            new: CommitSha::new(B.to_owned()),
        },
        reachable,
        sources: vec![RewriteSource {
            interaction,
            observed,
            snapshots: vec![SourceSnapshot::Legacy {
                interaction: interaction.as_str(),
                commit: A.to_owned(),
                link_type: "generated".to_owned(),
                linked_by: None,
                authorization_rows: vec![],
            }],
        }],
    }]
}

#[test]
fn a_rewrite_derives_one_event_for_each_observed_source() {
    let raw = format!("{A} {B}\n");
    let batch = apply("amend", raw.as_bytes(), &facts(true, true)).expect("reachable");
    assert_eq!(batch.mode, RewriteMode::Amend);
    assert_eq!(batch.events.len(), 1);
    assert_eq!(batch.snapshots.len(), 1);
    let event = &batch.events[0];
    assert!(event.verify_id());
    assert_eq!(event.target_commit.as_str(), B);
    assert_eq!(event.relation, DerivationRelation::RewriteExact);
    assert_eq!(event.evidence.kind, EvidenceKind::LocallyObserved);
    assert_eq!(event.origin, DerivationOrigin::LocalHook);
    assert_eq!(
        event.source_event_ids,
        vec![format!("legacy:00000000-0000-0000-0000-000000000007:{A}")]
    );
    assert_eq!(batch.batch_id.len(), 64);
    assert_ne!(batch.batch_id, batch.input_hash);
    let unobserved = apply_replay("amend", raw.as_bytes(), &facts(true, false)).expect("replay");
    assert!(unobserved.events.is_empty());
    assert!(unobserved.snapshots.is_empty());
}

#[test]
fn a_first_delivery_must_be_reachable_and_a_replay_need_not() {
    let raw = format!("{A} {B}\n");
    let raw = raw.as_bytes();
    assert!(validate_initial_delivery("amend", raw, &facts(true, true)).is_ok());
    assert_eq!(
        reason(validate_initial_delivery("amend", raw, &facts(false, true)).expect_err("apart")),
        "new commit is not reachable from HEAD"
    );
    assert_eq!(
        reason(apply("amend", raw, &facts(false, true)).err().expect("apart")),
        "new commit is not reachable from HEAD"
    );
    let replay = apply_replay("amend", raw, &facts(false, true)).expect("replay");
    assert_eq!(replay.events.len(), 1);
}

#[test]
fn a_notice_at_fault_derives_nothing() {
    let raw = format!("{A} {B}\n");
    let raw = raw.as_bytes();
    for refused in [
        apply("merge", raw, &facts(true, true)),
        apply_replay("merge", raw, &facts(true, true)),
    ] {
        assert_eq!(
            reason(refused.err().expect("mode")),
            "mode must be amend or rebase"
        );
    }
    assert_eq!(
        reason(validate_initial_delivery("amend", b"\xff\n", &vec![]).expect_err("bytes")),
        "not utf8"
    );
}

#[test]
fn inbox_files_give_back_what_they_were_written_for() {
    let raw = format!("{A} {B}\n");
    for mode in ["amend", "rebase"] {
        let (back, notice) = unframe(&frame(mode, raw.as_bytes())).expect("framed");
        assert_eq!(back, mode);
        assert_eq!(notice, raw.as_bytes());
    }
    assert_eq!(frame("amend", b"x"), b"amend\nx".to_vec());
    assert_eq!(reason(unframe(b"amend").expect_err("no line")), "bad inbox");
    assert_eq!(
        reason(unframe(b"\xff\nx").expect_err("mode")),
        "bad inbox mode"
    );
    assert_eq!(
        reason(unframe(&vec![10u8; MAX_REWRITE_BYTES + 33]).expect_err("long")),
        "unsafe inbox"
    );
}

#[test]
fn inbox_names_and_entries() {
    let name = inbox_file_name("amend", b"x");
    assert_eq!(name.len(), 64 + 5);
    assert!(name.ends_with(".json"));
    assert!(is_active_entry(&name));
    assert!(!is_active_entry(".json"));
    let temporary = inbox_temporary_name("amend", b"x");
    assert_eq!(temporary, format!(".{}.tmp", &name[..64]));
    assert!(!is_active_entry(&temporary));
    assert!(!is_stale_temporary(&temporary, None));
    assert!(!is_stale_temporary(&temporary, Some((3600, 0))));
    assert!(is_stale_temporary(&temporary, Some((3600, 1))));
    assert!(!is_stale_temporary(&name, Some((9999, 0))));
    assert_ne!(inbox_file_name("amend", b"x"), inbox_file_name("rebase", b"x"));
}

#[test]
fn a_full_inbox_still_accepts_a_replay() {
    assert_eq!(admit_existing(b"same", b"same").expect("replay"), Admission::AlreadyHeld);
    assert_eq!(
        reason(admit_existing(b"same", b"other").expect_err("collision")),
        "inbox identity collision"
    );
    assert_eq!(admit_new(&vec![1; 63], 10).expect("room"), Admission::Write);
    let full = admit_new(&vec![1; 64], 10).expect_err("full");
    assert!(!full.is_permanent());
    assert_eq!(reason(full), "rewrite inbox quota exceeded");
    assert!(admit_new(&vec![33554432], 1).is_err());
    assert!(admit_new(&vec![33554431], 1).is_ok());
    assert!(admit_new(&vec![u64::MAX, u64::MAX], 1).is_err());
}

#[test]
fn quarantine_keeps_the_newest_files_within_its_bounds() {
    assert_eq!(quarantine_evictions(&vec![]), 0);
    assert_eq!(quarantine_evictions(&vec![1; 32]), 0);
    assert_eq!(quarantine_evictions(&vec![1; 35]), 3);
    assert_eq!(quarantine_evictions(&vec![8388608, 1, 1]), 1);
    assert_eq!(quarantine_evictions(&vec![1, 8388609]), 2);
}

#[test]
fn only_private_regular_files_are_read() {
    assert!(check_private_file(true, false, Some(0o100600)).is_ok());
    assert!(check_private_file(true, false, None).is_ok());
    assert_eq!(
        reason(check_private_file(true, false, Some(0o100640)).expect_err("shared")),
        "inbox is not private"
    );
    assert_eq!(
        reason(check_private_file(false, false, None).expect_err("no file")),
        "unsafe inbox"
    );
    assert_eq!(
        reason(check_private_file(true, true, None).expect_err("link")),
        "unsafe inbox"
    );
    assert!(check_inbox_directory(true, false).is_ok());
    assert_eq!(
        reason(check_inbox_directory(true, true).expect_err("link")),
        "unsafe inbox directory"
    );
}

#[test]
fn refusals_of_a_notice_are_told_in_words() {
    assert_eq!(
        parse("merge", b"").expect_err("mode").message(),
        "invalid post-rewrite input: mode must be amend or rebase"
    );
    assert_eq!(
        RewriteError::Retryable("busy").message(),
        "retryable post-rewrite operation: busy"
    );
    assert_eq!(RewriteError::Io("x".to_owned()).message(), "io: x");
    assert_eq!(RewriteError::Git("x".to_owned()).message(), "git: x");
    assert_eq!(RewriteError::Db("x".to_owned()).message(), "db: x");
}
