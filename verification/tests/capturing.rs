use cvc_core::bounded::{bounded_head_tail, bounded_text, truncate_to_boundary};
use cvc_core::ingest::{
    build_batch, check_read, conversation_for, cursor_is_consistent, cwd_spellings, derive_title,
    ingest_report, path_aliases, read_from, resolve_session, IngestError, IngestMode,
};
use cvc_core::json::{parse_json, Json};
use cvc_core::links::{segment, verified_commits, CommitTime, Floating, ReportedCommit};
use cvc_core::models::{Conversation, InteractionId, Timestamp};
use cvc_core::planning::{
    bounded_arguments, derived_interaction_id, plan, worktree_relative, PathAlias, Plan, PlanInput,
};
use cvc_core::transcript::{
    check_version, line_body, parse_entry, parse_line, parse_window, render_tool_result_content,
    window_lines, EntryFault, MAX_LINE_BYTES, ParsedLine, RawEntry, TranscriptError,
};

#[test]
fn bounded_helpers_respect_char_boundaries() {
    let text = "héllo wörld";
    assert_eq!(truncate_to_boundary(text, 2), "h");
    assert!(bounded_text(text, 3).starts_with("hé"));
    let long = "a".repeat(100) + "é" + &"b".repeat(100);
    let rendered = bounded_head_tail(&long, 10, 10);
    assert!(rendered.starts_with(&"a".repeat(10)));
    assert!(rendered.ends_with(&"b".repeat(10)));
    assert!(rendered.contains("truncated"));
}

#[test]
fn derived_ids_are_stable_and_session_scoped() {
    let a = derived_interaction_id("harness", "session", "req_1");
    let b = derived_interaction_id("harness", "session", "req_1");
    let c = derived_interaction_id("harness", "other", "req_1");
    assert_eq!(a, b);
    assert_ne!(a, c);
    assert_eq!(a.as_str().len(), 36);
}

#[test]
fn worktree_relative_rejects_outside_and_relative_paths() {
    let root = "/work/repo";
    let aliases = vec![PathAlias {
        spelled: "/home/me/repo".to_owned(),
        canonical: "/work/repo".to_owned(),
    }];
    assert_eq!(
        worktree_relative("/work/repo/src/lib.rs", root, &aliases).as_deref(),
        Some("src/lib.rs")
    );
    assert_eq!(
        worktree_relative("/home/me/repo/src/lib.rs", root, &aliases).as_deref(),
        Some("src/lib.rs")
    );
    assert_eq!(worktree_relative("/etc/hosts", root, &aliases), None);
    assert_eq!(worktree_relative("src/lib.rs", root, &aliases), None);
    assert_eq!(worktree_relative("/work/repo", root, &aliases), None);
    assert_eq!(worktree_relative("/work/repo/../x", root, &aliases), None);
}

#[test]
fn short_texts_are_left_whole() {
    assert_eq!(truncate_to_boundary("héllo", 100), "héllo");
    assert_eq!(bounded_text("abc", 3), "abc");
    assert_eq!(bounded_head_tail("abcdef", 3, 3), "abcdef");
}

fn raw(kind: &str, uuid: &str) -> RawEntry {
    RawEntry {
        kind: Some(kind.to_owned()),
        uuid: Some(uuid.to_owned()),
        session_id: Some("s".to_owned()),
        timestamp: Some("2026-01-02T12:00:00Z".to_owned()),
        version: Some("2.0.0".to_owned()),
        ..RawEntry::default()
    }
}

fn message(text: &str) -> Option<Json> {
    parse_json(text)
}

fn user(uuid: &str, text: &str) -> RawEntry {
    RawEntry {
        message: message(&format!("{{\"role\":\"user\",\"content\":\"{text}\"}}")),
        ..raw("user", uuid)
    }
}

fn assistant(uuid: &str, parent: &str, request: &str, text: &str) -> RawEntry {
    RawEntry {
        parent_uuid: Some(parent.to_owned()),
        request_id: Some(request.to_owned()),
        message: message(&format!(
            "{{\"role\":\"assistant\",\"model\":\"m\",\"content\":[{{\"type\":\"text\",\"text\":\"{text}\"}}]}}"
        )),
        ..raw("assistant", uuid)
    }
}

fn input<'a>(aliases: &'a Vec<PathAlias>, final_mode: bool) -> PlanInput<'a> {
    PlanInput {
        harness: "harness",
        session_id: "s",
        worktree_root: "/work/repo",
        path_aliases: aliases,
        final_mode,
        now: Timestamp { seconds: 10, nanos: 0 },
    }
}

fn lines_of(raws: Vec<RawEntry>) -> Vec<ParsedLine> {
    raws.into_iter()
        .enumerate()
        .map(|(i, r)| parse_line(b"{}", &Ok(r), 100 * i as u64, "s").expect("entry"))
        .collect()
}

fn planned(final_mode: bool) -> Plan {
    let aliases = vec![];
    let lines = lines_of(vec![
        user("u1", "please help"),
        assistant("a1", "u1", "req_1", "first"),
        RawEntry {
            parent_uuid: Some("a1".to_owned()),
            ..user("u2", "more")
        },
        assistant("a2", "u2", "req_2", "second"),
    ]);
    plan(&lines, 0, &input(&aliases, final_mode))
}

#[test]
fn every_response_is_captured_or_pending() {
    let open = planned(false);
    assert_eq!(open.interactions.len() + open.pending_responses, 2);
    let closed = planned(true);
    assert_eq!(closed.interactions.len(), 2);
    assert_eq!(closed.pending_responses, 0);
    assert_eq!(closed.interactions[0].user_prompt, "please help");
    assert_eq!(closed.interactions[0].model_response.as_deref(), Some("first"));
    assert_eq!(
        closed.interactions[0].id,
        derived_interaction_id("harness", "s", &closed.interactions[0].response_key)
    );
    assert_eq!(closed.interactions[1].parent_id, Some(closed.interactions[0].id));
}

#[test]
fn only_the_newest_response_can_be_pending() {
    let open = planned(false);
    assert_eq!(open.pending_responses, 1);
    assert_eq!(open.interactions.len(), 1);
    assert_eq!(open.interactions[0].response_key, "req_1");
}

#[test]
fn the_cursor_never_moves_back_and_identities_are_stable() {
    let open = planned(false);
    let closed = planned(true);
    assert!(open.cursor_offset <= closed.cursor_offset);
    assert_eq!(open.interactions[0].id, closed.interactions[0].id);
}

#[test]
fn ingesting_again_records_nothing() {
    let plan = planned(true);
    let first = build_batch(&plan.interactions, "s", &vec![]);
    assert_eq!(first.rows.len(), 2);
    assert_eq!(first.already_present, 0);
    let known: Vec<InteractionId> = first.rows.iter().map(|r| r.interaction.id).collect();
    let second = build_batch(&plan.interactions, "s", &known);
    assert!(second.rows.is_empty());
    assert_eq!(second.already_present, 2);
    let report = ingest_report("s".to_owned(), 2, 0, 1, &plan, 500);
    assert_eq!(report.inserted, 2);
    assert_eq!(report.already_present, 1);
    assert_eq!(report.pending_responses, 0);
    assert_eq!(report.transcript_len, 500);
}

#[test]
fn conversations_are_titled_by_what_is_known() {
    let plan = planned(true);
    let now = Timestamp { seconds: 99, nanos: 0 };
    let fresh = conversation_for("s", &plan, &None, "Harness", now);
    assert_eq!(fresh.id, "s");
    assert_eq!(fresh.title, "please help");
    assert_eq!(fresh.created_at, plan.interactions[0].timestamp);
    let stored = Some(Conversation {
        id: "s".to_owned(),
        title: "kept".to_owned(),
        created_at: Timestamp { seconds: 1, nanos: 0 },
    });
    let kept = conversation_for("s", &plan, &stored, "Harness", now);
    assert_eq!(kept.title, "kept");
    assert_eq!(kept.created_at, Timestamp { seconds: 1, nanos: 0 });
    let aliases = vec![];
    let empty = cvc_core::planning::plan(&vec![], 0, &input(&aliases, true));
    let untitled = conversation_for("s", &empty, &None, "Harness", now);
    assert_eq!(untitled.title, "Harness session");
    assert_eq!(untitled.created_at, now);
}

#[test]
fn sessions_are_named_by_request_or_file() {
    assert_eq!(resolve_session(Some("abc"), None).expect("given"), "abc");
    assert_eq!(resolve_session(None, Some("stem")).expect("stem"), "stem");
    assert!(matches!(resolve_session(None, None), Err(IngestError::UnknownSession)));
    assert!(matches!(
        resolve_session(Some("../x"), None),
        Err(IngestError::InvalidSession(_))
    ));
}

#[test]
fn cursors_are_trusted_only_behind_a_line() {
    assert!(cursor_is_consistent(0, 10, None));
    assert!(cursor_is_consistent(5, 10, Some(10)));
    assert!(!cursor_is_consistent(5, 10, Some(65)));
    assert!(!cursor_is_consistent(11, 10, Some(10)));
    assert_eq!(read_from(Some(5), 10, Some(10)), 5);
    assert_eq!(read_from(Some(5), 10, Some(65)), 0);
    assert_eq!(read_from(None, 10, None), 0);
    assert!(check_read(1).is_ok());
    assert!(matches!(check_read(u64::MAX), Err(IngestError::TooLarge)));
    assert!(IngestMode::Final.is_final());
    assert!(!IngestMode::Incremental.is_final());
}

#[test]
fn titles_come_from_the_first_line_of_a_prompt() {
    assert_eq!(derive_title("  hello\nworld").as_deref(), Some("hello"));
    assert_eq!(derive_title("   \n "), None);
}

#[test]
fn working_directories_give_aliases() {
    let lines = lines_of(vec![RawEntry {
        cwd: Some("/home/me/repo".to_owned()),
        ..user("u1", "x")
    }]);
    assert_eq!(cwd_spellings(&lines), vec!["/home/me/repo".to_owned()]);
    let resolved = vec![PathAlias {
        spelled: "/home/me/repo".to_owned(),
        canonical: "/work/repo".to_owned(),
    }];
    let aliases = path_aliases(&resolved, "/work/repo");
    assert_eq!(aliases.len(), 1);
    assert_eq!(aliases[0].canonical, "/work/repo");
}

fn fault(entry: RawEntry) -> String {
    match parse_entry(&entry, 7, "s") {
        Err(TranscriptError::Malformed { offset, reason }) => {
            assert_eq!(offset, 7);
            format!("{reason:?}")
        }
        Err(TranscriptError::UnsupportedVersion { .. }) => "version".to_owned(),
        Err(TranscriptError::SessionMismatch { .. }) => "session".to_owned(),
        Ok(_) => "ok".to_owned(),
    }
}

#[test]
fn malformed_entries_are_named() {
    assert_eq!(fault(RawEntry { kind: None, ..user("u", "x") }), "NoType");
    assert_eq!(fault(RawEntry { uuid: None, ..user("u", "x") }), "NoUuid");
    assert_eq!(fault(RawEntry { session_id: None, ..user("u", "x") }), "NoSession");
    assert_eq!(fault(RawEntry { timestamp: None, ..user("u", "x") }), "NoTimestamp");
    assert_eq!(
        fault(RawEntry { timestamp: Some("noon".to_owned()), ..user("u", "x") }),
        "InvalidTimestamp(\"noon\", \"premature end of input\")"
    );
    assert_eq!(fault(RawEntry { version: None, ..user("u", "x") }), "NoVersion");
    assert_eq!(fault(RawEntry { message: None, ..user("u", "x") }), "NoMessage");
    assert_eq!(
        fault(RawEntry { message: message("{\"content\":\"x\"}"), ..user("u", "x") }),
        "NoRole"
    );
    assert_eq!(
        fault(RawEntry { session_id: Some("t".to_owned()), ..user("u", "x") }),
        "session"
    );
    assert_eq!(
        fault(RawEntry { version: Some("99.0.0".to_owned()), ..user("u", "x") }),
        "version"
    );
    assert_eq!(fault(user("u", "x")), "ok");
    assert!(matches!(
        parse_line(b"not json", &Err("expected ident".to_owned()), 3, "s"),
        Err(TranscriptError::Malformed { offset: 3, reason: EntryFault::NotAnEntry(words) })
            if words == "expected ident"
    ));
}

#[test]
fn malformed_messages_are_named() {
    let said = |kind: &str, text: &str| fault(RawEntry { message: message(text), ..raw(kind, "u") });
    assert_eq!(said("novel", "{}"), "UnknownWithMessage(\"novel\")");
    assert_eq!(
        said("user", "{\"role\":\"assistant\",\"content\":\"x\"}"),
        "RoleMismatch(\"assistant\", \"user\")"
    );
    assert_eq!(said("user", "{\"role\":\"user\"}"), "NoContent");
    let user_block = |text: &str| said("user", &format!("{{\"role\":\"user\",\"content\":{text}}}"));
    assert_eq!(user_block("7"), "UserContentShape");
    assert_eq!(user_block("[{}]"), "UserBlockWithoutType");
    assert_eq!(user_block("[{\"type\":\"tool_result\"}]"), "ResultWithoutToolUse");
    assert_eq!(user_block("[{\"type\":\"novel\"}]"), "UnknownUserBlock(\"novel\")");
    let block = |text: &str| {
        said("assistant", &format!("{{\"role\":\"assistant\",\"content\":{text}}}"))
    };
    assert_eq!(block("7"), "AssistantContentShape");
    assert_eq!(block("[{}]"), "AssistantBlockWithoutType");
    assert_eq!(block("[{\"type\":\"tool_use\"}]"), "ToolUseWithoutId");
    assert_eq!(block("[{\"type\":\"tool_use\",\"id\":\"t\"}]"), "ToolUseWithoutName");
    assert_eq!(block("[{\"type\":\"novel\"}]"), "UnknownAssistantBlock(\"novel\")");
    let long = vec![b'x'; MAX_LINE_BYTES + 1];
    assert!(matches!(
        parse_line(&long, &Err(String::new()), 5, "s"),
        Err(TranscriptError::Malformed { offset: 5, reason: EntryFault::LineTooLong })
    ));
}

#[test]
fn versions_are_checked_by_their_major_number() {
    assert!(check_version(Some("2.1.9"), 0).is_ok());
    assert!(matches!(
        check_version(Some("x"), 4),
        Err(TranscriptError::Malformed { offset: 4, reason: EntryFault::UnparsableVersion(_) })
    ));
}

#[test]
fn windows_end_at_the_last_complete_line() {
    assert_eq!(window_lines(b"a\nbc\nd"), vec![(0, 1), (2, 4), (5, 6)]);
    assert_eq!(line_body(b"abc\r"), b"abc");
    let first = user("u1", "x");
    let bytes = b"{}\n{\"half";
    let window = parse_window(bytes, &vec![Ok(first)], 50, "s").expect("window");
    assert_eq!(window.lines.len(), 1);
    assert_eq!(window.consumed, 3);
    assert!(window.truncated_tail);
}

#[test]
fn a_window_can_be_read_in_two_parts() {
    let raws = || {
        vec![
            Ok(user("u1", "one")),
            Ok(assistant("a1", "u1", "req_1", "two")),
            Ok(user("u2", "three")),
        ]
    };
    let bytes = b"{}\n{ }\n{\"a\":1}\n{\"half";
    let whole = parse_window(bytes, &raws(), 50, "s").expect("window");
    let first = parse_window(&bytes[..7], &raws()[..2].iter().map(|_| Err(String::new())).collect(), 50, "s");
    assert!(first.is_err());
    let mut rest = raws();
    let tail = rest.split_off(2);
    let first = parse_window(&bytes[..7], &rest, 50, "s").expect("window");
    let second = parse_window(&bytes[7..], &tail, 57, "s").expect("window");
    assert_eq!(first.consumed, 7);
    assert!(!first.truncated_tail);
    assert_eq!(first.consumed + second.consumed, whole.consumed);
    assert_eq!(second.truncated_tail, whole.truncated_tail);
    let parts: Vec<String> =
        first.lines.iter().chain(second.lines.iter()).map(|l| format!("{l:?}")).collect();
    let lines: Vec<String> = whole.lines.iter().map(|l| format!("{l:?}")).collect();
    assert_eq!(parts, lines);
}

#[test]
fn the_end_of_a_session_captures_what_was_pending() {
    let open = planned(false);
    let closed = planned(true);
    assert_eq!(
        closed.interactions.len(),
        open.interactions.len() + open.pending_responses
    );
    assert_eq!(
        format!("{:?}", closed.interactions[0]),
        format!("{:?}", open.interactions[0])
    );
    assert_eq!(closed.title, open.title);
    assert_eq!(closed.first_human_prompt, open.first_human_prompt);
}

#[test]
fn a_second_ingest_from_the_cursor_changes_nothing() {
    let aliases = vec![];
    let mut raws = vec![
        Ok(user("u1", "one")),
        Ok(assistant("a1", "u1", "req_1", "two")),
        Ok(RawEntry { parent_uuid: Some("a1".to_owned()), ..user("u2", "three") }),
        Ok(assistant("a2", "u2", "req_2", "four")),
    ];
    let bytes = b"{}\n{}\n{}\n{}\n";
    let window = parse_window(bytes, &raws, 10, "s").expect("window");
    let first = plan(&window.lines, 10, &input(&aliases, false));
    assert_eq!(first.interactions.len(), 1);
    assert_eq!(first.cursor_offset, 13);
    assert_eq!(read_from(Some(13), 22, Some(b'\n')), 13);
    let rest = raws.split_off(1);
    let window = parse_window(&bytes[3..], &rest, 13, "s").expect("window");
    let second = plan(&window.lines, 13, &input(&aliases, false));
    assert_eq!(second.cursor_offset, 13);
    assert_eq!(second.interactions.len(), 1);
    assert_eq!(second.interactions[0].id, first.interactions[0].id);
    let batch = build_batch(&second.interactions, "s", &vec![first.interactions[0].id]);
    assert!(batch.rows.is_empty());
}

#[test]
fn tool_results_are_rendered_as_text() {
    let text = parse_json("\"plain\"").expect("text");
    assert_eq!(render_tool_result_content(Some(&text)), "plain");
    assert_eq!(render_tool_result_content(None), "");
    let blocks = parse_json("[{\"type\":\"text\",\"text\":\"a\"},{\"type\":\"text\",\"text\":\"b\"}]")
        .expect("blocks");
    assert_eq!(render_tool_result_content(Some(&blocks)), "a\nb");
}

#[test]
fn tool_arguments_stay_json_within_their_budget() {
    let value = parse_json("{\"a\":1,\"b\":\"x\"}").expect("object");
    let mut budget = 1000usize;
    assert_eq!(bounded_arguments(&value, &mut budget), "{\"a\":1,\"b\":\"x\"}");
    assert_eq!(budget, 1000 - 15);
}

fn report(sha: &str, response_time: i64, time: i64) -> ReportedCommit {
    ReportedCommit {
        response_time,
        commit: Some(CommitTime { sha: sha.to_owned(), time }),
    }
}

#[test]
fn commits_claim_the_floating_responses_before_them() {
    let reports = vec![report("b", 200, 200), report("a", 100, 100)];
    let commits = verified_commits(&reports, 1000);
    let names: Vec<&str> = commits.iter().map(|c| c.sha.as_str()).collect();
    assert_eq!(names, vec!["a", "b"]);
    let floating = vec![
        Floating { id: InteractionId::from_uuid(3), time: 150 },
        Floating { id: InteractionId::from_uuid(1), time: 50 },
        Floating { id: InteractionId::from_uuid(2), time: 60 },
        Floating { id: InteractionId::from_uuid(4), time: 900 },
    ];
    let claims = segment(&commits, &floating);
    assert_eq!(
        claims,
        vec![
            vec![InteractionId::from_uuid(1), InteractionId::from_uuid(2)],
            vec![InteractionId::from_uuid(3)],
        ]
    );
}

#[test]
fn a_relative_root_is_reached_through_an_alias_alone() {
    let alias = |spelled: &str, canonical: &str| PathAlias {
        spelled: spelled.to_owned(),
        canonical: canonical.to_owned(),
    };
    let through = |root: &str, canonical: &str| {
        worktree_relative("/link/src/x.rs", root, &vec![alias("/link", canonical)])
    };
    assert_eq!(through("work/repo", "work/./repo/").as_deref(), Some("src/x.rs"));
    assert_eq!(through("./repo", "./repo").as_deref(), Some("src/x.rs"));
    assert_eq!(through(".", "./repo").as_deref(), Some("repo/src/x.rs"));
    assert_eq!(through("./repo", "repo"), None);
    assert_eq!(through("repo", "/repo"), None);
    assert_eq!(through("/repo", "repo"), None);
    assert_eq!(through("", ""), None);
    assert_eq!(through("src", "").as_deref(), Some("x.rs"));
    assert_eq!(worktree_relative("/work/repo/x.rs", "work/repo", &vec![]), None);
    let kept = |root: &str, spelled: &str, canonical: &str| {
        path_aliases(&vec![alias(spelled, canonical)], root).len()
    };
    assert_eq!(kept("repo", "/link", "repo/src"), 1);
    assert_eq!(kept("repo", "./repo", "repo"), 1);
    assert_eq!(kept("repo", "repo/.", "repo"), 0);
    assert_eq!(kept("repo", "/link", "/repo"), 0);
    assert_eq!(kept("", "/link", "/repo"), 1);
}

#[test]
fn a_response_split_around_the_cursor_is_recorded_once() {
    let aliases = vec![];
    let raws = || {
        vec![
            Ok(assistant("a1", "u0", "req_1", "one")),
            Ok(assistant("a2", "a1", "req_2", "two")),
            Ok(assistant("a3", "a2", "req_1", "three")),
        ]
    };
    let bytes = b"{}\n{}\n{}\n";
    for (final_mode, moved) in [(false, 13), (true, 16)] {
        let window = parse_window(bytes, &raws(), 10, "s").expect("window");
        let first = plan(&window.lines, 10, &input(&aliases, final_mode));
        assert_eq!(first.cursor_offset, 13);
        let rest = raws().split_off(1);
        let window = parse_window(&bytes[3..], &rest, 13, "s").expect("window");
        let second = plan(&window.lines, 13, &input(&aliases, final_mode));
        assert_eq!(second.cursor_offset, moved);
        let ids = |plan: &Plan| plan.interactions.iter().map(|i| i.id).collect::<Vec<_>>();
        assert!(ids(&second).iter().all(|id| ids(&first).contains(id)));
        assert!(build_batch(&second.interactions, "s", &ids(&first)).rows.is_empty());
    }
}

#[test]
fn a_suppressed_response_is_offered_again_alone() {
    let plan = planned(true);
    let known = vec![plan.interactions[0].id];
    let batch = build_batch(&plan.interactions, "s", &known);
    let offered: Vec<InteractionId> = batch.rows.iter().map(|r| r.interaction.id).collect();
    assert_eq!(offered, vec![plan.interactions[1].id]);
    assert_eq!(batch.already_present, 1);
}

#[test]
fn refusals_of_a_transcript_are_told_in_words() {
    let at = |reason: EntryFault| {
        TranscriptError::Malformed { offset: 7, reason }.message("Harness")
    };
    let said = |reason: EntryFault| {
        let words = at(reason);
        let start = "transcript entry at byte 7 is malformed: ";
        assert!(words.starts_with(start));
        words[start.len()..].to_owned()
    };
    let text = |s: &str| s.to_owned();
    assert_eq!(said(EntryFault::LineTooLong), "line exceeds the supported size");
    assert_eq!(
        said(EntryFault::NotAnEntry(text("EOF"))),
        "not a JSON transcript entry: EOF"
    );
    assert_eq!(
        said(EntryFault::UnknownWithMessage(text("a\"b"))),
        "unknown entry type \"a\\\"b\" carries a message"
    );
    assert_eq!(
        said(EntryFault::InvalidTimestamp(text("noon"), text("bad"))),
        "invalid timestamp \"noon\": bad"
    );
    assert_eq!(
        said(EntryFault::RoleMismatch(text("user"), text("assistant"))),
        "message role \"user\" does not match entry type \"assistant\""
    );
    assert_eq!(
        said(EntryFault::UnparsableVersion(text("x"))),
        "unparsable version \"x\""
    );
    assert_eq!(
        said(EntryFault::UnknownUserBlock(text("x"))),
        "unknown user content block type \"x\""
    );
    assert_eq!(
        said(EntryFault::UnknownAssistantBlock(text("x"))),
        "unknown assistant content block type \"x\""
    );
    for (fault, words) in [
        (EntryFault::NoType, "entry has no type"),
        (EntryFault::NoUuid, "message entry has no uuid"),
        (EntryFault::NoSession, "message entry has no sessionId"),
        (EntryFault::NoTimestamp, "message entry has no timestamp"),
        (EntryFault::NoVersion, "message entry has no version"),
        (EntryFault::NoMessage, "message entry has no message"),
        (EntryFault::NoRole, "message has no role"),
        (EntryFault::NoContent, "message has no content"),
        (EntryFault::UserBlockWithoutType, "user content block has no type"),
        (EntryFault::ResultWithoutToolUse, "tool_result has no tool_use_id"),
        (EntryFault::UserContentShape, "user content is neither text nor blocks"),
        (EntryFault::AssistantBlockWithoutType, "assistant content block has no type"),
        (EntryFault::ToolUseWithoutId, "tool_use has no id"),
        (EntryFault::ToolUseWithoutName, "tool_use has no name"),
        (EntryFault::AssistantContentShape, "assistant content is neither text nor blocks"),
    ] {
        assert_eq!(said(fault), words);
    }
    let version = check_version(Some("3.1.0"), 12).expect_err("version");
    assert_eq!(
        version.message("Harness"),
        "transcript entry at byte 12 has Harness version 3.1.0; this cvc supports transcript \
         major version 2 only"
    );
    let session = parse_entry(&user("u", "x"), 0, "t").expect_err("session");
    assert_eq!(
        IngestError::Transcript(session).message("Harness"),
        "transcript entry at byte 0 belongs to session s, expected t"
    );
    let shown = |error: IngestError| error.message("Harness");
    assert_eq!(
        shown(IngestError::NotRegularFile(text("/a b"))),
        "transcript \"/a b\" is not a regular file"
    );
    assert_eq!(shown(IngestError::TooLarge), "transcript exceeds the supported size");
    assert_eq!(
        shown(IngestError::InvalidSession(text("a/b"))),
        "session id \"a/b\" is not a safe identifier"
    );
    assert_eq!(
        shown(IngestError::UnknownSession),
        "transcript file name does not name a session; pass the session id explicitly"
    );
}
