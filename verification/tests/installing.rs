use cvc_core::git::{
    calculate_context_hash, context_form, context_item, push_patch_line, ContextForm,
};
use cvc_core::hooks::{install as install_hook, managed_hooks, GitHook, HookAction, HookFault};
use cvc_core::json::{parse_json, Json, Member};
use cvc_core::models::InteractionId;
use cvc_core::repository::{
    back_reference, check_marker, check_unmarked, common_dir_path, discovery_failure,
    one_line_file, RepositoryLayoutError, MAX_COMMONDIR_BYTES,
};
use cvc_core::settings::{
    exclude_addition, hook_command, install, read_settings, render_settings, shell_quote,
    uninstall, Harness, HookEvent, InstallAction, SettingsFault,
};
use cvc_core::vscode::{
    ChatMessage, ChatRequest, ResponsePartRaw, ToolMessage, ToolMessageOrString,
};

fn harness() -> Harness {
    Harness {
        key: "agent".into(),
        label: "Agent".into(),
        settings_path: ".agent/settings.local.json".into(),
    }
}

#[test]
fn commands_quote_the_binary() {
    assert_eq!(shell_quote("/opt/it's", false), "'/opt/it'\\''s'");
    assert_eq!(shell_quote("C:\\cvc.exe", true), "\"C:\\cvc.exe\"");
    let sig = harness().signature();
    assert_eq!(sig, "ingest agent --hook");
    assert_eq!(
        hook_command("/bin/cvc", false, &sig),
        "'/bin/cvc' ingest agent --hook"
    );
}

#[test]
fn installing_twice_changes_nothing() {
    let sig = harness().signature();
    let command = hook_command("/bin/cvc", false, &sig);
    let given = read_settings("{\"model\":\"x\",\"hooks\":{\"Other\":[1]}}").expect("settings");
    let first = install(&sig, &given, &command).expect("installed");
    assert!(first.changed);
    let text = render_settings(first.settings);
    assert!(text.ends_with("}\n"));
    assert!(text.contains("\"model\": \"x\""));
    assert!(text.contains("\"Other\""));
    for event in [HookEvent::PostToolUse, HookEvent::Stop, HookEvent::SessionEnd] {
        assert!(text.contains(event.as_str()));
    }
    let again = read_settings(&text).expect("written");
    let second = install(&sig, &again, &command).expect("installed");
    assert!(!second.changed);
    assert_eq!(second.action, InstallAction::AlreadyPresent);
    assert_eq!(render_settings(second.settings), text);
}

#[test]
fn a_new_binary_refreshes_the_entries() {
    let sig = harness().signature();
    let first = install(&sig, &vec![], &hook_command("/a", false, &sig)).expect("installed");
    assert_eq!(first.action, InstallAction::Created);
    let second =
        install(&sig, &first.settings, &hook_command("/b", false, &sig)).expect("installed");
    assert_eq!(second.action, InstallAction::Updated);
    let text = render_settings(second.settings);
    assert!(text.contains("'/b' ingest"));
    assert!(!text.contains("'/a' ingest"));
}

#[test]
fn uninstalling_leaves_only_what_was_there() {
    let sig = harness().signature();
    let command = hook_command("/bin/cvc", false, &sig);
    let given = read_settings("{\"model\":\"x\"}").expect("settings");
    let done = install(&sig, &given, &command).expect("installed");
    let gone = uninstall(&sig, &done.settings);
    assert_eq!(gone.removed, 3);
    assert_eq!(render_settings(gone.settings), "{\n  \"model\": \"x\"\n}\n");
    let none = uninstall(&sig, &given);
    assert_eq!(none.removed, 0);
}

#[test]
fn uninstalling_takes_only_what_is_ours() {
    let sig = harness().signature();
    let ours = "{\"type\":\"command\",\"command\":\"'/b/cvc' ingest agent --hook\"}";
    let given = |text: String| uninstall(&sig, &read_settings(&text).expect("settings"));
    let kept = given(format!(
        "{{\"hooks\":{{\"PreToolUse\":[],\"Stop\":[{{\"hooks\":[{ours}]}}]}}}}"
    ));
    assert_eq!(kept.removed, 1);
    assert_eq!(
        render_settings(kept.settings),
        "{\n  \"hooks\": {\n    \"PreToolUse\": []\n  }\n}\n"
    );
    let grouped = given(format!(
        "{{\"hooks\":{{\"Stop\":[{{\"hooks\":[]}},{{\"hooks\":[{ours}]}},{{\"hooks\":[1,{ours}]}}]}}}}"
    ));
    assert_eq!(grouped.removed, 2);
    let text = render_settings(grouped.settings).replace([' ', '\n'], "");
    assert_eq!(text, "{\"hooks\":{\"Stop\":[{\"hooks\":[]},{\"hooks\":[1]}]}}");
    let emptied = given(format!("{{\"hooks\":{{\"Stop\":[{{\"hooks\":[{ours}]}}]}}}}"));
    assert_eq!(emptied.removed, 1);
    assert!(emptied.settings.is_empty());
    let untouched = given("{\"hooks\":{}}".to_owned());
    assert_eq!(untouched.removed, 0);
    assert_eq!(render_settings(untouched.settings), "{\n  \"hooks\": {}\n}\n");
}

#[test]
fn a_mixed_group_keeps_every_other_entry_in_its_place() {
    let sig = harness().signature();
    let group = |ours: &str| {
        format!(
            "{{\"hooks\":{{\"Stop\":[{{\"hooks\":[1,{{\"command\":\"{ours}\",\"timeout\":5}},\"x\"],\
             \"matcher\":\"m\"}}]}}}}"
        )
    };
    let given = read_settings(&group("'/a' ingest agent --hook")).expect("settings");
    let command = hook_command("/b", false, &sig);
    let text = render_settings(install(&sig, &given, &command).expect("installed").settings);
    assert!(text.replace([' ', '\n'], "").contains(
        "\"Stop\":[{\"hooks\":[1,{\"command\":\"'/b'ingestagent--hook\",\"timeout\":5},\"x\"],\
         \"matcher\":\"m\"}]"
    ));
    let left = render_settings(uninstall(&sig, &given).settings).replace([' ', '\n'], "");
    assert_eq!(
        left,
        "{\"hooks\":{\"Stop\":[{\"hooks\":[1,\"x\"],\"matcher\":\"m\"}]}}"
    );
}

#[test]
fn printed_members_stand_in_order_and_once() {
    let member = |name: &str, value: &str| Member {
        name: name.to_owned(),
        value: Json::Text(value.to_owned()),
    };
    let text = render_settings(vec![member("b", "1"), member("a", "2"), member("b", "3")]);
    assert_eq!(text, "{\n  \"a\": \"2\",\n  \"b\": \"3\"\n}\n");
}

#[test]
fn a_second_hook_installation_writes_nothing() {
    let mut reported = Vec::new();
    for hook in managed_hooks() {
        let first = install_hook(hook, "p", false, None).expect("hook");
        assert_eq!(first.action, HookAction::Created);
        let text = first.content.expect("content");
        let second = install_hook(hook, "p", false, Some(&text)).expect("hook");
        assert_eq!(second.action, HookAction::AlreadyPresent);
        assert_eq!(second.content, None);
        reported.extend(second.outcome.map(|o| (o.hook_name, o.action)));
        let mine = install_hook(hook, "p", false, Some("echo hi")).expect("hook");
        let grown = mine.content.expect("content");
        let settled = install_hook(hook, "p", false, Some(&grown)).expect("hook");
        assert_eq!(settled.action, HookAction::AlreadyPresent);
    }
    let present = HookAction::AlreadyPresent;
    assert_eq!(
        reported,
        vec![("post-commit", present), ("pre-push", present), ("post-merge", present)]
    );
}

#[test]
fn an_earlier_hook_is_upgraded_once() {
    let settled = |hook: GitHook, given: &str| {
        let first = install_hook(hook, "p", false, Some(given)).expect("hook");
        assert_eq!(first.action, HookAction::Appended);
        let written = first.content.expect("content");
        let second = install_hook(hook, "p", false, Some(&written)).expect("hook");
        assert_eq!(second.action, HookAction::AlreadyPresent);
        assert_eq!(second.content, None);
        written
    };
    for (hook, bare) in [
        (GitHook::PostCommit, "cvc hook post-commit"),
        (GitHook::PrePush, "cvc hook pre-push \"$@\""),
        (GitHook::PostMerge, "cvc hook post-merge"),
        (GitHook::PostRewrite, "cvc hook post-rewrite \"$@\""),
    ] {
        let written = settled(hook, &format!("#!/bin/sh\n# CVC Hook\n{bare}\necho hi\n"));
        assert_eq!(
            written,
            format!("#!/bin/sh\n{}\necho hi\n", hook.wanted_lines())
        );
        let pushed = settled(hook, "x\n# CVC Hook\ncvc push\ny # CVC Hook\ncvc push --all");
        let wanted = hook.wanted_lines();
        assert_eq!(pushed, format!("x\n{wanted}\ny {wanted} --all"));
    }
}

#[test]
fn an_earlier_command_without_a_plain_line_break_is_never_settled() {
    for given in [
        "# CVC Hook\ncvc hook post-commit",
        "# CVC Hook\ncvc hook post-commit\r\n",
    ] {
        let first = install_hook(GitHook::PostCommit, "p", false, Some(given)).expect("hook");
        assert_eq!(first.action, HookAction::Appended);
        assert_eq!(first.content.as_deref(), Some(given));
    }
}

#[test]
fn malformed_settings_are_left_alone() {
    assert!(matches!(read_settings("{"), Err(SettingsFault::NotJson)));
    assert!(matches!(read_settings("[]"), Err(SettingsFault::NotObject)));
    assert!(read_settings("  \n").expect("blank").is_empty());
    let sig = harness().signature();
    let command = hook_command("/bin/cvc", false, &sig);
    let odd = read_settings("{\"hooks\":[]}").expect("settings");
    assert!(matches!(install(&sig, &odd, &command), Err(SettingsFault::HooksNotObject)));
    let odd = read_settings("{\"hooks\":{\"Stop\":{}}}").expect("settings");
    assert!(matches!(
        install(&sig, &odd, &command),
        Err(SettingsFault::EventNotArray(HookEvent::Stop))
    ));
}

#[test]
fn the_settings_file_is_excluded_once() {
    let h = harness();
    let added = exclude_addition("*.log", &h).expect("missing");
    assert_eq!(
        added,
        "\n# CVC: machine-specific Agent hook path, never committed\n/.agent/settings.local.json\n"
    );
    assert_eq!(exclude_addition(&format!("*.log{added}"), &h), None);
}

#[test]
fn hooks_are_created_appended_and_left() {
    let hook = GitHook::PostCommit;
    let fresh = install_hook(hook, "p", false, None).expect("hook");
    assert_eq!(fresh.action, HookAction::Created);
    let text = fresh.content.expect("content");
    assert_eq!(text, "#!/bin/sh\n\n# CVC Hook\ncvc hook post-commit || :\n");
    assert_eq!(fresh.outcome.expect("reported").hook_name, "post-commit");
    let again = install_hook(hook, "p", false, Some(&text)).expect("hook");
    assert_eq!(again.action, HookAction::AlreadyPresent);
    let added = install_hook(hook, "p", false, Some("#!/bin/sh\necho hi\n")).expect("hook");
    assert_eq!(added.action, HookAction::Appended);
    let kept = added.content.expect("content");
    assert!(kept.starts_with("#!/bin/sh\necho hi\n"));
    assert!(kept.contains(hook.wanted_lines()));
    assert!(install_hook(GitHook::PostRewrite, "p", false, None)
        .expect("hook")
        .outcome
        .is_none());
    assert!(matches!(install_hook(hook, "p", true, None), Err(HookFault::Symlink)));
}

fn words(e: RepositoryLayoutError) -> String {
    match e {
        RepositoryLayoutError::Metadata(s) => s,
        other => format!("{other:?}"),
    }
}

#[test]
fn markers_give_back_their_path() {
    for raw in ["../..\n", "../..\r\n", "../.."] {
        assert_eq!(common_dir_path(&raw.into(), false).expect("path"), "../..");
        assert_eq!(one_line_file(&raw.into()).expect("line"), "../..");
    }
    let refused = |raw: &[u8]| words(common_dir_path(&raw.to_vec(), false).expect_err("refused"));
    assert_eq!(refused(b"\xff"), "commondir is not UTF-8");
    assert_eq!(refused(b"a\0"), "commondir contains NUL");
    assert_eq!(refused(b"\n"), "commondir must contain exactly one non-empty line");
    assert_eq!(refused(b"a\nb"), "commondir must contain exactly one non-empty line");
    assert_eq!(
        words(common_dir_path(&b"a".to_vec(), true).expect_err("replaced")),
        "commondir changed or is oversized"
    );
    assert_eq!(back_reference("gitdir: /x").as_deref(), Some("/x"));
    assert_eq!(back_reference("/x"), None);
}

#[test]
fn layouts_are_checked() {
    assert!(check_marker(false, true, 3).is_ok());
    assert!(check_marker(true, true, 3).is_err());
    assert!(check_marker(false, true, MAX_COMMONDIR_BYTES + 1).is_err());
    assert!(check_unmarked(false).is_ok());
    assert!(check_unmarked(true).is_err());
    assert!(matches!(
        discovery_failure(true, false, "x"),
        RepositoryLayoutError::NotRepository
    ));
    assert!(matches!(discovery_failure(false, false, "x"), RepositoryLayoutError::Git(_)));
    assert!(matches!(
        discovery_failure(true, true, "x"),
        RepositoryLayoutError::Metadata(_)
    ));
}

#[test]
fn context_is_digested_with_the_prompt() {
    let id = InteractionId::from_uuid(1);
    let object = Some("c".to_owned());
    let item = context_item(&id, "b", ContextForm::Object, object, "dropped".into());
    assert_eq!(item.dirty_patch, None);
    assert_eq!(
        calculate_context_hash("a", &vec![item]),
        "ba7816bf8f01cfea414140de5dae2223b00361a396177a9cb410ff61f20015ad"
    );
    assert_eq!(context_form(true, true), ContextForm::Patch);
    assert_eq!(context_form(false, true), ContextForm::ObjectAndPatch);
    assert_eq!(context_form(false, false), ContextForm::Object);
    let mut patch = String::new();
    push_patch_line(&mut patch, 'H', "@@\n");
    push_patch_line(&mut patch, '+', "é\n");
    assert_eq!(patch, "@@\n+é\n");
}

fn part(kind: Option<&str>, value: Option<&str>) -> ResponsePartRaw {
    ResponsePartRaw {
        kind: kind.map(str::to_owned),
        value: value.map(str::to_owned),
        invocation_message: None,
        past_tense_message: None,
        edits: None,
        tool_name: None,
        extra: vec![],
    }
}

#[test]
fn responses_are_put_together_from_their_parts() {
    let mut call = part(Some("toolInvocationSerialized"), None);
    call.invocation_message = Some(ToolMessageOrString::Str("Reading".into()));
    call.past_tense_message = Some(ToolMessageOrString::Msg(ToolMessage {
        value: "Read it".into(),
    }));
    let request = ChatRequest {
        request_id: "r".into(),
        message: ChatMessage { text: "q".into() },
        response: Some(vec![
            part(None, Some("Hello")),
            part(Some("thinking"), Some("hm")),
            call,
            part(Some("markdownContent"), Some("done")),
        ]),
        variable_data: None,
    };
    assert_eq!(request.reconstruct_full_response(), "Hello\nRead it\ndone");
}

#[test]
fn documents_are_read() {
    let doc = parse_json("{\"b\":[true,null,-7],\"a\":\"t\"}").expect("document");
    assert_eq!(doc.text_at("a").map(String::as_str), Some("t"));
    assert_eq!(doc.bool_at("a"), None);
    match doc.get("b") {
        Some(Json::List(items)) => {
            assert_eq!(items[0].as_bool(), Some(true));
            assert_eq!(items[2].as_i64(), Some(-7));
        }
        _ => panic!("no list"),
    }
    assert!(doc.get("c").is_none());
    assert!(parse_json("{").is_none());
    let value: serde_json::Value = serde_json::from_str("{\"k\":1}").expect("value");
    assert_eq!(Json::from_value(value).get("k").and_then(Json::as_i64), Some(1));
}
