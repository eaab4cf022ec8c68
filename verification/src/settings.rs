//! Checkout-local harness settings: which hook entries an installation writes,
//! refreshes and removes, and how the settings file is kept out of commits.
//!
//! Hooks stand in a settings file of the active worktree that is never shared:
//! an entry carries the absolute path of the binary to run, and a
//! machine-specific path must not be committable.

use crate::json;
use crate::json::{
    Json, JsonModel, Member, number_from, parse_json, position, print_json_pretty, set_member,
};
use crate::text;
use crate::text::{
    chars_of, contains_text, glue, glue3, is_blank, replace_text, split_text, text_equal, trim,
};
use vstd::prelude::*;
use vstd::string::*;

verus! {

/// Explicit time limit of a hook: the last hooks of a session otherwise share a
/// budget of under two seconds, which a contended database could exceed.
pub const HOOK_TIMEOUT_SECS: u64 = 30;

/// A lifecycle event that triggers ingestion. Tool calls keep ingestion close to
/// real time; the other two close the last response of a turn or session.
#[derive(Debug, Clone, Copy, PartialEq, Eq, Structural)]
pub enum HookEvent {
    PostToolUse,
    Stop,
    SessionEnd,
}

impl HookEvent {
    /// The name of the event.
    pub open spec fn name(self) -> Seq<char> {
        match self {
            HookEvent::PostToolUse => "PostToolUse"@,
            HookEvent::Stop => "Stop"@,
            HookEvent::SessionEnd => "SessionEnd"@,
        }
    }

    /// The name of the event.
    pub fn as_str(self) -> (r: &'static str)
        ensures
            r@ == self.name(),
    {
        match self {
            HookEvent::PostToolUse => "PostToolUse",
            HookEvent::Stop => "Stop",
            HookEvent::SessionEnd => "SessionEnd",
        }
    }
}

/// What an installation did.
#[derive(Debug, Clone, Copy, PartialEq, Eq, Structural)]
pub enum InstallAction {
    Created,
    Updated,
    AlreadyPresent,
}

/// How the settings file is kept out of commits.
#[derive(Debug, Clone, Copy, PartialEq, Eq, Structural)]
pub enum ExcludeAction {
    AlreadyIgnored,
    AddedToInfoExclude,
}

/// The outcome of an installation.
#[derive(Debug, Clone)]
pub struct InstallOutcome {
    pub settings_path: String,
    pub command: String,
    pub action: InstallAction,
    pub exclude: ExcludeAction,
}

/// The outcome of a removal.
#[derive(Debug, Clone)]
pub struct UninstallOutcome {
    pub settings_path: String,
    pub removed: usize,
    pub deleted_file: bool,
}

/// Why settings are not modified.
#[derive(Debug, Clone, Copy, PartialEq, Eq, Structural)]
pub enum SettingsFault {
    NotJson,
    NotObject,
    HooksNotObject,
    EventNotArray(HookEvent),
}

/// The harness that hooks are installed for.
#[derive(Debug, Clone)]
pub struct Harness {
    /// The word for the harness in commands.
    pub key: String,
    /// The name of the harness in texts.
    pub label: String,
    /// The settings file of the harness, relative to the worktree root.
    pub settings_path: String,
}

/// How installed entries are recognised regardless of the binary's path.
pub open spec fn signature(key: Seq<char>) -> Seq<char> {
    "ingest "@ + key + " --hook"@
}

impl Harness {
    /// How entries of the harness are recognised.
    pub fn signature(&self) -> (r: String)
        ensures
            r@ == signature(self.key@),
    {
        glue3("ingest ", self.key.as_str(), " --hook")
    }
}

/// A path as one word of a shell command.
pub open spec fn quoted(path: Seq<char>, windows: bool) -> Seq<char> {
    if windows {
        "\""@ + path + "\""@
    } else {
        "'"@ + text::replaced(path, "'"@, "'\\''"@) + "'"@
    }
}

/// Writes a path as one word of a shell command.
pub fn shell_quote(path: &str, windows: bool) -> (r: String)
    ensures
        r@ == quoted(path@, windows),
{
    if windows {
        glue3("\"", path, "\"")
    } else {
        proof {
            reveal_strlit("'");
        }
        let inner = replace_text(path, "'", "'\\''");
        glue3("'", inner.as_str(), "'")
    }
}

/// The shell command that a hook entry runs, for the path of the binary.
pub fn hook_command(binary: &str, windows: bool, sig: &str) -> (r: String)
    ensures
        r@ == quoted(binary@, windows) + " "@ + sig@,
        sig@.len() > 0 ==> carries_signature(sig@, r@),
{
    let word = shell_quote(binary, windows);
    let r = glue3(word.as_str(), " ", sig);
    proof {
        let at = (quoted(binary@, windows) + " "@).len() as int;
        assert(r@.subrange(at, at + sig@.len()) =~= sig@);
        if sig@.len() > 0 {
            text::lemma_found(r@, sig@, 0, at);
        }
    }
    r
}

/// A command that carries the signature.
pub open spec fn carries_signature(sig: Seq<char>, command: Seq<char>) -> bool {
    text::first_at(command, sig, 0) is Some
}

/// The command of a hook entry.
pub open spec fn entry_command(e: JsonModel) -> Option<Seq<char>> {
    json::text_in(json::member(e, "command"@))
}

/// An entry that an installation wrote.
pub open spec fn is_ours(sig: Seq<char>, e: JsonModel) -> bool {
    entry_command(e) matches Some(command) && carries_signature(sig, command)
}

/// An entry that an installation wrote, for another command.
pub open spec fn is_stale(sig: Seq<char>, e: JsonModel, command: Seq<char>) -> bool {
    is_ours(sig, e) && entry_command(e) != Some(command)
}

/// The entries of a group of hooks.
pub open spec fn entries_of(g: JsonModel) -> Option<Seq<JsonModel>> {
    match json::member(g, "hooks"@) {
        Some(JsonModel::List(entries)) => Some(entries),
        _ => None,
    }
}

/// One of the entries is ours.
pub open spec fn some_ours(sig: Seq<char>, entries: Seq<JsonModel>) -> bool {
    exists|i: int| 0 <= i < entries.len() && is_ours(sig, #[trigger] entries[i])
}

/// One of the entries is ours and stale.
pub open spec fn some_stale(sig: Seq<char>, entries: Seq<JsonModel>, command: Seq<char>) -> bool {
    exists|i: int| 0 <= i < entries.len() && is_stale(sig, #[trigger] entries[i], command)
}

/// A group with an entry of ours.
pub open spec fn group_ours(sig: Seq<char>, g: JsonModel) -> bool {
    entries_of(g) matches Some(entries) && some_ours(sig, entries)
}

/// A group with a stale entry of ours.
pub open spec fn group_stale(sig: Seq<char>, g: JsonModel, command: Seq<char>) -> bool {
    entries_of(g) matches Some(entries) && some_stale(sig, entries, command)
}

/// The entry, with the command put in if it is ours.
pub open spec fn renewed_entry(sig: Seq<char>, e: JsonModel, command: Seq<char>) -> JsonModel {
    if is_ours(sig, e) {
        JsonModel::Object(json::with_member(e->Object_0, "command"@, JsonModel::Text(command)))
    } else {
        e
    }
}

/// Entries, with the command put into those of ours.
pub open spec fn renewed_entries(sig: Seq<char>, entries: Seq<JsonModel>, command: Seq<char>) -> Seq<JsonModel> {
    entries.map_values(|e: JsonModel| renewed_entry(sig, e, command))
}

/// The group, with the command put into its entries of ours.
pub open spec fn renewed_group(sig: Seq<char>, g: JsonModel, command: Seq<char>) -> JsonModel {
    match entries_of(g) {
        Some(entries) => JsonModel::Object(
            json::with_member(
                g->Object_0,
                "hooks"@,
                JsonModel::List(renewed_entries(sig, entries, command)),
            ),
        ),
        None => g,
    }
}

/// The group that an installation adds.
pub open spec fn new_group(command: Seq<char>) -> JsonModel {
    JsonModel::Object(
        seq![
            (
                "hooks"@,
                JsonModel::List(
                    seq![
                        JsonModel::Object(
                            seq![
                                ("command"@, JsonModel::Text(command)),
                                ("timeout"@, JsonModel::Number(json::json_number(HOOK_TIMEOUT_SECS))),
                                ("type"@, JsonModel::Text("command"@)),
                            ],
                        ),
                    ],
                ),
            ),
        ],
    )
}

/// One of the groups has an entry of ours.
pub open spec fn any_ours(sig: Seq<char>, groups: Seq<JsonModel>) -> bool {
    exists|i: int| 0 <= i < groups.len() && group_ours(sig, #[trigger] groups[i])
}

/// One of the groups has a stale entry of ours.
pub open spec fn any_stale(sig: Seq<char>, groups: Seq<JsonModel>, command: Seq<char>) -> bool {
    exists|i: int| 0 <= i < groups.len() && group_stale(sig, #[trigger] groups[i], command)
}

/// The groups of an event after an installation.
pub open spec fn renewed_groups(sig: Seq<char>, groups: Seq<JsonModel>, command: Seq<char>) -> Seq<JsonModel> {
    let renewed = groups.map_values(|g: JsonModel| renewed_group(sig, g, command));
    if any_ours(sig, groups) {
        renewed
    } else {
        renewed.push(new_group(command))
    }
}

/// The hooks while events are installed, whether an entry of ours was there, and
/// whether anything changed.
#[verifier::ext_equal]
pub struct HooksModel {
    pub hooks: Seq<(Seq<char>, JsonModel)>,
    pub existed: bool,
    pub changed: bool,
}

/// The groups of an event.
pub open spec fn groups_of(hooks: Seq<(Seq<char>, JsonModel)>, event: Seq<char>) -> Option<
    Seq<JsonModel>,
> {
    match json::member(JsonModel::Object(hooks), event) {
        None => Some(Seq::empty()),
        Some(JsonModel::List(groups)) => Some(groups),
        Some(_) => None,
    }
}

/// The hooks with one event installed.
pub open spec fn event_installed(sig: Seq<char>, h: HooksModel, event: HookEvent, command: Seq<char>) -> Result<
    HooksModel,
    SettingsFault,
> {
    match groups_of(h.hooks, event.name()) {
        None => Err(SettingsFault::EventNotArray(event)),
        Some(groups) => Ok(
            HooksModel {
                hooks: json::with_member(
                    h.hooks,
                    event.name(),
                    JsonModel::List(renewed_groups(sig, groups, command)),
                ),
                existed: h.existed || any_ours(sig, groups),
                changed: h.changed || !any_ours(sig, groups) || any_stale(sig, groups, command),
            },
        ),
    }
}

/// The hooks with every event installed.
pub open spec fn hooks_installed(sig: Seq<char>, hooks: Seq<(Seq<char>, JsonModel)>, command: Seq<char>) -> Result<
    HooksModel,
    SettingsFault,
> {
    match event_installed(sig, 
        HooksModel { hooks, existed: false, changed: false },
        HookEvent::PostToolUse,
        command,
    ) {
        Err(f) => Err(f),
        Ok(first) => match event_installed(sig, first, HookEvent::Stop, command) {
            Err(f) => Err(f),
            Ok(second) => event_installed(sig, second, HookEvent::SessionEnd, command),
        },
    }
}

/// Settings after an installation, and what it did.
#[verifier::ext_equal]
pub struct InstalledModel {
    pub settings: Seq<(Seq<char>, JsonModel)>,
    pub action: InstallAction,
    pub changed: bool,
}

/// What an installation makes of settings.
pub open spec fn installed(sig: Seq<char>, settings: Seq<(Seq<char>, JsonModel)>, command: Seq<char>) -> Result<
    InstalledModel,
    SettingsFault,
> {
    match json::member(JsonModel::Object(settings), "hooks"@) {
        Some(JsonModel::Object(hooks)) => with_hooks(sig, settings, hooks, command),
        None => with_hooks(sig, settings, Seq::empty(), command),
        Some(_) => Err(SettingsFault::HooksNotObject),
    }
}

/// What an installation makes of settings with these hooks.
pub open spec fn with_hooks(
    sig: Seq<char>,
    settings: Seq<(Seq<char>, JsonModel)>,
    hooks: Seq<(Seq<char>, JsonModel)>,
    command: Seq<char>,
) -> Result<InstalledModel, SettingsFault> {
    match hooks_installed(sig, hooks, command) {
        Err(f) => Err(f),
        Ok(h) => Ok(
            InstalledModel {
                settings: json::with_member(settings, "hooks"@, JsonModel::Object(h.hooks)),
                action: if !h.existed {
                    InstallAction::Created
                } else if h.changed {
                    InstallAction::Updated
                } else {
                    InstallAction::AlreadyPresent
                },
                changed: h.changed,
            },
        ),
    }
}

fn entry_is_ours(sig: &str, e: &Json) -> (r: bool)
    ensures
        r == is_ours(sig@, e@),
{
    match e.text_at("command") {
        Some(command) => contains_text(command.as_str(), sig),
        None => false,
    }
}

fn entry_is_stale(sig: &str, e: &Json, command: &str) -> (r: bool)
    ensures
        r == is_stale(sig@, e@, command@),
{
    if !entry_is_ours(sig, e) {
        return false;
    }
    match e.text_at("command") {
        Some(held) => !text_equal(held.as_str(), command),
        None => false,
    }
}

fn copy_members(members: &Vec<Member>) -> (r: Vec<Member>)
    ensures
        json::member_models(r@) == json::member_models(members@),
{
    let ghost all = json::member_models(members@);
    let n: usize = members.len();
    let mut out: Vec<Member> = Vec::new();
    let mut i: usize = 0;
    assert(json::member_models(out@) =~= all.take(0));
    while i < n
        invariant
            i <= n,
            n == members@.len(),
            all == json::member_models(members@),
            json::member_models(out@) == all.take(i as int),
        decreases n - i,
    {
        let ghost held = json::member_models(out@);
        out.push(Member { name: members[i].name.clone(), value: members[i].value.clone() });
        assert(json::member_models(out@) =~= held.push(all[i as int]));
        i += 1;
        assert(json::member_models(out@) =~= all.take(i as int));
    }
    assert(all.take(n as int) =~= all);
    out
}

/// A copy of an object with one member set; anything else stays.
fn set_in(doc: &Json, name: &str, value: Json) -> (r: Json)
    requires
        doc@ is Object,
    ensures
        r@ == JsonModel::Object(json::with_member(doc@->Object_0, name@, value@)),
{
    match doc {
        Json::Object(members) => {
            proof {
                json::lemma_object_model(*members);
            }
            let mut out = copy_members(members);
            set_member(&mut out, name.to_owned(), value);
            proof {
                json::lemma_object_model(out);
            }
            Json::Object(out)
        },
        _ => {
            assert(false);
            doc.clone()
        },
    }
}

fn renew_entry(sig: &str, e: &Json, command: &str) -> (r: Json)
    ensures
        r@ == renewed_entry(sig@, e@, command@),
{
    if entry_is_ours(sig, e) {
        assert(e@ is Object);
        set_in(e, "command", Json::Text(command.to_owned()))
    } else {
        e.clone()
    }
}

struct Renewed {
    list: Vec<Json>,
    ours: bool,
    stale: bool,
}

fn renew_entries(sig: &str, entries: &Vec<Json>, command: &str) -> (r: Renewed)
    ensures
        json::list_models(r.list@) == renewed_entries(sig@, json::list_models(entries@), command@),
        r.ours == some_ours(sig@, json::list_models(entries@)),
        r.stale == some_stale(sig@, json::list_models(entries@), command@),
{
    let ghost all = json::list_models(entries@);
    let ghost wanted = renewed_entries(sig@, all, command@);
    let n: usize = entries.len();
    let mut list: Vec<Json> = Vec::new();
    let mut ours: bool = false;
    let mut stale: bool = false;
    let mut i: usize = 0;
    assert(json::list_models(list@) =~= wanted.take(0));
    while i < n
        invariant
            i <= n,
            n == entries@.len(),
            all == json::list_models(entries@),
            wanted == renewed_entries(sig@, all, command@),
            json::list_models(list@) == wanted.take(i as int),
            ours == (exists|k: int| 0 <= k < i && is_ours(sig@, #[trigger] all[k])),
            stale == (exists|k: int| 0 <= k < i && is_stale(sig@, #[trigger] all[k], command@)),
        decreases n - i,
    {
        let ghost held = json::list_models(list@);
        assert(all[i as int] == entries@[i as int]@);
        if entry_is_ours(sig, &entries[i]) {
            assert(is_ours(sig@, all[i as int]));
            ours = true;
        }
        if entry_is_stale(sig, &entries[i], command) {
            assert(is_stale(sig@, all[i as int], command@));
            stale = true;
        }
        let renewed = renew_entry(sig, &entries[i], command);
        assert(renewed@ == wanted[i as int]);
        list.push(renewed);
        assert(json::list_models(list@) =~= held.push(wanted[i as int]));
        i += 1;
        assert(json::list_models(list@) =~= wanted.take(i as int));
    }
    assert(wanted.take(n as int) =~= wanted);
    Renewed { list, ours, stale }
}

struct RenewedGroup {
    group: Json,
    ours: bool,
    stale: bool,
}

fn renew_group(sig: &str, g: &Json, command: &str) -> (r: RenewedGroup)
    ensures
        r.group@ == renewed_group(sig@, g@, command@),
        r.ours == group_ours(sig@, g@),
        r.stale == group_stale(sig@, g@, command@),
{
    match g.get("hooks") {
        Some(Json::List(entries)) => {
            proof {
                json::lemma_list_model(*entries);
            }
            let renewed = renew_entries(sig, entries, command);
            let list = Json::List(renewed.list);
            proof {
                json::lemma_list_model(renewed.list);
            }
            RenewedGroup { group: set_in(g, "hooks", list), ours: renewed.ours, stale: renewed.stale }
        },
        _ => RenewedGroup { group: g.clone(), ours: false, stale: false },
    }
}

fn build_group(command: &str) -> (r: Json)
    ensures
        r@ == new_group(command@),
{
    let mut entry: Vec<Member> = Vec::new();
    entry.push(Member { name: "command".to_owned(), value: Json::Text(command.to_owned()) });
    entry.push(
        Member { name: "timeout".to_owned(), value: Json::Number(number_from(HOOK_TIMEOUT_SECS)) },
    );
    entry.push(Member { name: "type".to_owned(), value: Json::Text("command".to_owned()) });
    let ghost members = seq![
        ("command"@, JsonModel::Text(command@)),
        ("timeout"@, JsonModel::Number(json::json_number(HOOK_TIMEOUT_SECS))),
        ("type"@, JsonModel::Text("command"@)),
    ];
    proof {
        assert(json::member_models(entry@) =~= members);
        json::lemma_object_model(entry);
    }
    let mut entries: Vec<Json> = Vec::new();
    entries.push(Json::Object(entry));
    proof {
        assert(json::list_models(entries@) =~= seq![JsonModel::Object(members)]);
        json::lemma_list_model(entries);
    }
    let mut group: Vec<Member> = Vec::new();
    group.push(Member { name: "hooks".to_owned(), value: Json::List(entries) });
    proof {
        assert(json::member_models(group@) =~= seq![
            ("hooks"@, JsonModel::List(seq![JsonModel::Object(members)])),
        ]);
        json::lemma_object_model(group);
    }
    Json::Object(group)
}

fn renew_groups(sig: &str, groups: &Vec<Json>, command: &str) -> (r: Renewed)
    ensures
        json::list_models(r.list@) == renewed_groups(sig@, json::list_models(groups@), command@),
        r.ours == any_ours(sig@, json::list_models(groups@)),
        r.stale == any_stale(sig@, json::list_models(groups@), command@),
{
    let ghost all = json::list_models(groups@);
    let ghost wanted = all.map_values(|g: JsonModel| renewed_group(sig@, g, command@));
    let n: usize = groups.len();
    let mut list: Vec<Json> = Vec::new();
    let mut ours: bool = false;
    let mut stale: bool = false;
    let mut i: usize = 0;
    assert(json::list_models(list@) =~= wanted.take(0));
    while i < n
        invariant
            i <= n,
            n == groups@.len(),
            all == json::list_models(groups@),
            wanted == all.map_values(|g: JsonModel| renewed_group(sig@, g, command@)),
            json::list_models(list@) == wanted.take(i as int),
            ours == (exists|k: int| 0 <= k < i && group_ours(sig@, #[trigger] all[k])),
            stale == (exists|k: int| 0 <= k < i && group_stale(sig@, #[trigger] all[k], command@)),
        decreases n - i,
    {
        let ghost held = json::list_models(list@);
        assert(all[i as int] == groups@[i as int]@);
        let renewed = renew_group(sig, &groups[i], command);
        if renewed.ours {
            assert(group_ours(sig@, all[i as int]));
            ours = true;
        }
        if renewed.stale {
            assert(group_stale(sig@, all[i as int], command@));
            stale = true;
        }
        assert(renewed.group@ == wanted[i as int]);
        list.push(renewed.group);
        assert(json::list_models(list@) =~= held.push(wanted[i as int]));
        i += 1;
        assert(json::list_models(list@) =~= wanted.take(i as int));
    }
    assert(wanted.take(n as int) =~= wanted);
    if !ours {
        let added = build_group(command);
        list.push(added);
        assert(json::list_models(list@) =~= wanted.push(added@));
    }
    Renewed { list, ours, stale }
}

struct Hooks {
    hooks: Vec<Member>,
    existed: bool,
    changed: bool,
}

impl Hooks {
    spec fn model(self) -> HooksModel {
        HooksModel {
            hooks: json::member_models(self.hooks@),
            existed: self.existed,
            changed: self.changed,
        }
    }
}

fn install_event(sig: &str, h: Hooks, event: HookEvent, command: &str) -> (r: Result<Hooks, SettingsFault>)
    ensures
        match r {
            Ok(done) => event_installed(sig@, h.model(), event, command@) == Ok::<
                HooksModel,
                SettingsFault,
            >(done.model()),
            Err(f) => event_installed(sig@, h.model(), event, command@) == Err::<
                HooksModel,
                SettingsFault,
            >(f),
        },
{
    let mut out = h;
    let ghost members = json::member_models(out.hooks@);
    let none: Vec<Json> = Vec::new();
    assert(json::list_models(none@) =~= Seq::<JsonModel>::empty());
    let groups = match position(&out.hooks, event.as_str()) {
        None => &none,
        Some(k) => {
            assert(members[k as int].1 == out.hooks@[k as int].value@);
            match &out.hooks[k].value {
                Json::List(groups) => {
                    proof {
                        json::lemma_list_model(*groups);
                    }
                    groups
                },
                _ => {
                    return Err(SettingsFault::EventNotArray(event));
                },
            }
        },
    };
    assert(groups_of(members, event.name()) == Some(json::list_models(groups@)));
    let renewed = renew_groups(sig, groups, command);
    let existed: bool = out.existed || renewed.ours;
    let changed: bool = out.changed || !renewed.ours || renewed.stale;
    let list = Json::List(renewed.list);
    proof {
        json::lemma_list_model(renewed.list);
    }
    set_member(&mut out.hooks, event.as_str().to_owned(), list);
    Ok(Hooks { hooks: out.hooks, existed, changed })
}

/// Settings after an installation.
pub struct Installed {
    pub settings: Vec<Member>,
    pub action: InstallAction,
    /// Whether the file is to be written.
    pub changed: bool,
}

impl View for Installed {
    type V = InstalledModel;

    open spec fn view(&self) -> InstalledModel {
        InstalledModel {
            settings: json::member_models(self.settings@),
            action: self.action,
            changed: self.changed,
        }
    }
}

/// Installs or refreshes the hook entries. Existing unrelated settings and hooks
/// are preserved; only entries carrying the signature are touched.
pub fn install(sig: &str, settings: &Vec<Member>, command: &str) -> (r: Result<Installed, SettingsFault>)
    ensures
        match r {
            Ok(done) => installed(sig@, json::member_models(settings@), command@) == Ok::<
                InstalledModel,
                SettingsFault,
            >(done@),
            Err(f) => installed(sig@, json::member_models(settings@), command@) == Err::<
                InstalledModel,
                SettingsFault,
            >(f),
        },
{
    let ghost given = json::member_models(settings@);
    let mut out = copy_members(settings);
    let hooks: Vec<Member> = match position(&out, "hooks") {
        None => {
            let none: Vec<Member> = Vec::new();
            assert(json::member_models(none@) =~= Seq::<(Seq<char>, JsonModel)>::empty());
            none
        },
        Some(k) => {
            assert(given[k as int].1 == out@[k as int].value@);
            match &out[k].value {
                Json::Object(members) => {
                    proof {
                        json::lemma_object_model(*members);
                    }
                    copy_members(members)
                },
                _ => {
                    return Err(SettingsFault::HooksNotObject);
                },
            }
        },
    };
    let ghost start = json::member_models(hooks@);
    assert(installed(sig@, given, command@) == with_hooks(sig@, given, start, command@));
    let first = match install_event(sig, 
        Hooks { hooks, existed: false, changed: false },
        HookEvent::PostToolUse,
        command,
    ) {
        Err(f) => {
            return Err(f);
        },
        Ok(h) => h,
    };
    let second = match install_event(sig, first, HookEvent::Stop, command) {
        Err(f) => {
            return Err(f);
        },
        Ok(h) => h,
    };
    let third = match install_event(sig, second, HookEvent::SessionEnd, command) {
        Err(f) => {
            return Err(f);
        },
        Ok(h) => h,
    };
    let action = if !third.existed {
        InstallAction::Created
    } else if third.changed {
        InstallAction::Updated
    } else {
        InstallAction::AlreadyPresent
    };
    let changed: bool = third.changed;
    let object = Json::Object(third.hooks);
    proof {
        json::lemma_object_model(third.hooks);
    }
    set_member(&mut out, "hooks".to_owned(), object);
    Ok(Installed { settings: out, action, changed })
}

/// Entries without those of ours.
pub open spec fn cleaned_entries(sig: Seq<char>, entries: Seq<JsonModel>) -> Seq<JsonModel> {
    entries.filter(|e: JsonModel| !is_ours(sig, e))
}

/// The group without entries of ours.
pub open spec fn cleaned_group(sig: Seq<char>, g: JsonModel) -> JsonModel {
    match entries_of(g) {
        Some(entries) => JsonModel::Object(
            json::with_member(g->Object_0, "hooks"@, JsonModel::List(cleaned_entries(sig, entries))),
        ),
        None => g,
    }
}

/// A group that stays: one without an entry of ours, whatever it holds, or one
/// with other entries besides.
pub open spec fn group_stays(sig: Seq<char>, g: JsonModel) -> bool {
    group_ours(sig, g) ==> cleaned_entries(sig, entries_of(g)->0).len() > 0
}

/// The groups that stay, of the first `k`: each as it is where no entry of it is
/// ours, else without those entries.
pub open spec fn cleaned_groups(sig: Seq<char>, groups: Seq<JsonModel>, k: nat) -> Seq<JsonModel>
    decreases k,
{
    if k == 0 {
        Seq::empty()
    } else if !group_ours(sig, groups[k - 1]) {
        cleaned_groups(sig, groups, (k - 1) as nat).push(groups[k - 1])
    } else if group_stays(sig, groups[k - 1]) {
        cleaned_groups(sig, groups, (k - 1) as nat).push(cleaned_group(sig, groups[k - 1]))
    } else {
        cleaned_groups(sig, groups, (k - 1) as nat)
    }
}

/// How many entries of ours the first `k` groups have.
pub open spec fn ours_in_groups(sig: Seq<char>, groups: Seq<JsonModel>, k: nat) -> nat
    decreases k,
{
    if k == 0 {
        0
    } else {
        ours_in_groups(sig, groups, (k - 1) as nat) + match entries_of(groups[k - 1]) {
            Some(entries) => (entries.len() - cleaned_entries(sig, entries).len()) as nat,
            None => 0,
        }
    }
}

/// The first `k` events without entries of ours. An event that has none stays as
/// it is; one whose groups all leave goes with them.
pub open spec fn cleaned_hooks(sig: Seq<char>, hooks: Seq<(Seq<char>, JsonModel)>, k: nat) -> Seq<
    (Seq<char>, JsonModel),
>
    decreases k,
{
    if k == 0 {
        Seq::empty()
    } else {
        let before = cleaned_hooks(sig, hooks, (k - 1) as nat);
        match hooks[k - 1].1 {
            JsonModel::List(groups) => {
                let cleaned = cleaned_groups(sig, groups, groups.len());
                if ours_in_groups(sig, groups, groups.len()) == 0 {
                    before.push(hooks[k - 1])
                } else if cleaned.len() == 0 {
                    before
                } else {
                    before.push((hooks[k - 1].0, JsonModel::List(cleaned)))
                }
            },
            _ => before.push(hooks[k - 1]),
        }
    }
}

/// How many entries of ours the first `k` events have.
pub open spec fn ours_in_hooks(sig: Seq<char>, hooks: Seq<(Seq<char>, JsonModel)>, k: nat) -> nat
    decreases k,
{
    if k == 0 {
        0
    } else {
        ours_in_hooks(sig, hooks, (k - 1) as nat) + match hooks[k - 1].1 {
            JsonModel::List(groups) => ours_in_groups(sig, groups, groups.len()),
            _ => 0,
        }
    }
}

/// Settings without entries of ours, and how many there were.
pub open spec fn uninstalled(sig: Seq<char>, settings: Seq<(Seq<char>, JsonModel)>) -> (
    Seq<(Seq<char>, JsonModel)>,
    nat,
) {
    match json::find_member(settings, "hooks"@, 0) {
        Some(k) => match settings[k].1 {
            JsonModel::Object(hooks) => {
                let cleaned = cleaned_hooks(sig, hooks, hooks.len());
                let ours = ours_in_hooks(sig, hooks, hooks.len());
                (
                    if ours == 0 {
                        settings
                    } else if cleaned.len() == 0 {
                        settings.remove(k)
                    } else {
                        settings.update(k, ("hooks"@, JsonModel::Object(cleaned)))
                    },
                    ours,
                )
            },
            _ => (settings, 0),
        },
        None => (settings, 0),
    }
}

fn clean_entries(sig: &str, entries: &Vec<Json>) -> (r: Vec<Json>)
    ensures
        json::list_models(r@) == cleaned_entries(sig@, json::list_models(entries@)),
        r@.len() <= entries@.len(),
        r@.len() < entries@.len() <==> some_ours(sig@, json::list_models(entries@)),
{
    let ghost all = json::list_models(entries@);
    let ghost keep = |e: JsonModel| !is_ours(sig@, e);
    let n: usize = entries.len();
    let mut out: Vec<Json> = Vec::new();
    let mut i: usize = 0;
    proof {
        reveal(Seq::filter);
        assert(json::list_models(out@) =~= all.take(0).filter(keep));
    }
    while i < n
        invariant
            i <= n,
            n == entries@.len(),
            all == json::list_models(entries@),
            keep == (|e: JsonModel| !is_ours(sig@, e)),
            out@.len() <= i,
            json::list_models(out@) == all.take(i as int).filter(keep),
        decreases n - i,
    {
        let ghost held = json::list_models(out@);
        assert(all[i as int] == entries@[i as int]@);
        proof {
            reveal(Seq::filter);
            assert(all.take(i + 1).drop_last() =~= all.take(i as int));
            assert(all.take(i + 1).last() == all[i as int]);
        }
        if !entry_is_ours(sig, &entries[i]) {
            out.push(entries[i].clone());
            assert(json::list_models(out@) =~= held.push(all[i as int]));
        }
        i += 1;
    }
    assert(all.take(n as int) =~= all);
    proof {
        lemma_cleaned_len(sig@, all);
    }
    out
}

proof fn lemma_cleaned_len(sig: Seq<char>, entries: Seq<JsonModel>)
    ensures
        cleaned_entries(sig, entries).len() <= entries.len(),
        cleaned_entries(sig, entries).len() < entries.len() <==> some_ours(sig, entries),
    decreases entries.len(),
{
    reveal(Seq::filter);
    if entries.len() > 0 {
        let rest = entries.drop_last();
        lemma_cleaned_len(sig, rest);
        assert(cleaned_entries(sig, rest) =~= rest.filter(|e: JsonModel| !is_ours(sig, e)));
        if some_ours(sig, rest) {
            let i = choose|i: int| 0 <= i < rest.len() && is_ours(sig, #[trigger] rest[i]);
            assert(is_ours(sig, entries[i]));
        }
        if some_ours(sig, entries) && !is_ours(sig, entries.last()) {
            let i = choose|i: int| 0 <= i < entries.len() && is_ours(sig, #[trigger] entries[i]);
            assert(is_ours(sig, rest[i]));
        }
        if is_ours(sig, entries.last()) {
            assert(is_ours(sig, entries[entries.len() - 1]));
        }
    }
}

fn clean_groups(sig: &str, groups: &Vec<Json>, count: usize) -> (r: (Vec<Json>, usize))
    requires
        count + ours_in_groups(sig@, json::list_models(groups@), groups@.len()) <= usize::MAX,
    ensures
        json::list_models(r.0@) == cleaned_groups(sig@, json::list_models(groups@), groups@.len()),
        r.1 == count + ours_in_groups(sig@, json::list_models(groups@), groups@.len()),
{
    let ghost all = json::list_models(groups@);
    let n: usize = groups.len();
    let mut out: Vec<Json> = Vec::new();
    let mut removed: usize = count;
    let mut i: usize = 0;
    assert(json::list_models(out@) =~= Seq::<JsonModel>::empty());
    while i < n
        invariant
            i <= n,
            n == groups@.len(),
            all == json::list_models(groups@),
            json::list_models(out@) == cleaned_groups(sig@, all, i as nat),
            removed == count + ours_in_groups(sig@, all, i as nat),
            count + ours_in_groups(sig@, all, n as nat) <= usize::MAX,
        decreases n - i,
    {
        let ghost held = json::list_models(out@);
        let g = &groups[i];
        assert(all[i as int] == g@);
        proof {
            lemma_ours_grow(sig@, all, (i + 1) as nat, n as nat);
        }
        match g.get("hooks") {
            Some(Json::List(entries)) => {
                proof {
                    json::lemma_list_model(*entries);
                }
                let kept = clean_entries(sig, entries);
                removed = removed + (entries.len() - kept.len());
                if kept.len() == entries.len() {
                    let copy = g.clone();
                    out.push(copy);
                    assert(json::list_models(out@) =~= held.push(copy@));
                } else if kept.len() > 0 {
                    let list = Json::List(kept);
                    proof {
                        json::lemma_list_model(kept);
                    }
                    let cleaned = set_in(g, "hooks", list);
                    assert(cleaned@ == cleaned_group(sig@, all[i as int]));
                    out.push(cleaned);
                    assert(json::list_models(out@) =~= held.push(cleaned@));
                }
            },
            _ => {
                let copy = g.clone();
                out.push(copy);
                assert(json::list_models(out@) =~= held.push(copy@));
            },
        }
        i += 1;
    }
    (out, removed)
}

proof fn lemma_ours_grow(sig: Seq<char>, groups: Seq<JsonModel>, k: nat, n: nat)
    requires
        k <= n,
    ensures
        ours_in_groups(sig, groups, k) <= ours_in_groups(sig, groups, n),
    decreases n,
{
    if k < n {
        lemma_ours_grow(sig, groups, k, (n - 1) as nat);
    }
}

proof fn lemma_hooks_grow(sig: Seq<char>, hooks: Seq<(Seq<char>, JsonModel)>, k: nat, n: nat)
    requires
        k <= n,
    ensures
        ours_in_hooks(sig, hooks, k) <= ours_in_hooks(sig, hooks, n),
    decreases n,
{
    if k < n {
        lemma_hooks_grow(sig, hooks, k, (n - 1) as nat);
    }
}

fn clean_hooks(sig: &str, hooks: &Vec<Member>) -> (r: (Vec<Member>, usize))
    requires
        ours_in_hooks(sig@, json::member_models(hooks@), hooks@.len()) <= usize::MAX,
    ensures
        json::member_models(r.0@) == cleaned_hooks(sig@, json::member_models(hooks@), hooks@.len()),
        r.1 == ours_in_hooks(sig@, json::member_models(hooks@), hooks@.len()),
{
    let ghost all = json::member_models(hooks@);
    let n: usize = hooks.len();
    let mut out: Vec<Member> = Vec::new();
    let mut removed: usize = 0;
    let mut i: usize = 0;
    assert(json::member_models(out@) =~= Seq::<(Seq<char>, JsonModel)>::empty());
    while i < n
        invariant
            i <= n,
            n == hooks@.len(),
            all == json::member_models(hooks@),
            json::member_models(out@) == cleaned_hooks(sig@, all, i as nat),
            removed == ours_in_hooks(sig@, all, i as nat),
            ours_in_hooks(sig@, all, n as nat) <= usize::MAX,
        decreases n - i,
    {
        let ghost held = json::member_models(out@);
        let event = &hooks[i];
        assert(all[i as int] == (event.name@, event.value@));
        proof {
            lemma_hooks_grow(sig@, all, (i + 1) as nat, n as nat);
        }
        match &event.value {
            Json::List(groups) => {
                proof {
                    json::lemma_list_model(*groups);
                }
                let (cleaned, count) = clean_groups(sig, groups, removed);
                let untouched: bool = count == removed;
                removed = count;
                if untouched {
                    out.push(Member { name: event.name.clone(), value: event.value.clone() });
                    assert(json::member_models(out@) =~= held.push(all[i as int]));
                } else if cleaned.len() > 0 {
                    let list = Json::List(cleaned);
                    proof {
                        json::lemma_list_model(cleaned);
                    }
                    let ghost made = (event.name@, list@);
                    out.push(Member { name: event.name.clone(), value: list });
                    assert(json::member_models(out@) =~= held.push(made));
                }
            },
            _ => {
                out.push(Member { name: event.name.clone(), value: event.value.clone() });
                assert(json::member_models(out@) =~= held.push(all[i as int]));
            },
        }
        i += 1;
    }
    (out, removed)
}

/// Settings after a removal.
pub struct Uninstalled {
    pub settings: Vec<Member>,
    pub removed: usize,
}

/// Removes every entry carrying the signature and nothing else. A group, an event
/// or the hooks as a whole leave only where the removal itself emptied them.
pub fn uninstall(sig: &str, settings: &Vec<Member>) -> (r: Uninstalled)
    requires
        uninstalled(sig@, json::member_models(settings@)).1 <= usize::MAX,
    ensures
        uninstalled(sig@, json::member_models(settings@)) == (
            json::member_models(r.settings@),
            r.removed as nat,
        ),
{
    let ghost given = json::member_models(settings@);
    let mut out = copy_members(settings);
    match position(settings, "hooks") {
        Some(k) => {
            assert(given[k as int].1 == settings@[k as int].value@);
            match &settings[k].value {
                Json::Object(hooks) => {
                    proof {
                        json::lemma_object_model(*hooks);
                    }
                    let (cleaned, removed) = clean_hooks(sig, hooks);
                    if removed == 0 {
                        return Uninstalled { settings: out, removed: 0 };
                    }
                    if cleaned.len() == 0 {
                        out.remove(k);
                        assert(json::member_models(out@) =~= given.remove(k as int));
                    } else {
                        let object = Json::Object(cleaned);
                        proof {
                            json::lemma_object_model(cleaned);
                        }
                        let ghost made = ("hooks"@, object@);
                        out.set(k, Member { name: "hooks".to_owned(), value: object });
                        assert(json::member_models(out@) =~= given.update(k as int, made));
                    }
                    Uninstalled { settings: out, removed }
                },
                _ => Uninstalled { settings: out, removed: 0 },
            }
        },
        None => Uninstalled { settings: out, removed: 0 },
    }
}

/// The settings that a text holds; a blank one holds none.
pub open spec fn settings_in(text: Seq<char>) -> Result<Seq<(Seq<char>, JsonModel)>, SettingsFault> {
    if text::trimmed(text).len() == 0 {
        Ok(Seq::empty())
    } else {
        match json::parsed_json(text) {
            Some(JsonModel::Object(members)) => Ok(members),
            Some(_) => Err(SettingsFault::NotObject),
            None => Err(SettingsFault::NotJson),
        }
    }
}

/// Reads the text of a settings file.
pub fn read_settings(text: &str) -> (r: Result<Vec<Member>, SettingsFault>)
    ensures
        match r {
            Ok(members) => settings_in(text@) == Ok::<
                Seq<(Seq<char>, JsonModel)>,
                SettingsFault,
            >(json::member_models(members@)),
            Err(f) => settings_in(text@) == Err::<Seq<(Seq<char>, JsonModel)>, SettingsFault>(f),
        },
{
    if is_blank(text) {
        let none: Vec<Member> = Vec::new();
        assert(json::member_models(none@) =~= Seq::<(Seq<char>, JsonModel)>::empty());
        return Ok(none);
    }
    match parse_json(text) {
        Some(Json::Object(members)) => {
            proof {
                json::lemma_object_model(members);
            }
            Ok(members)
        },
        Some(_) => Err(SettingsFault::NotObject),
        None => Err(SettingsFault::NotJson),
    }
}

/// The text of a settings file: the document with indentation, and a line break.
pub fn render_settings(settings: Vec<Member>) -> (r: String)
    ensures
        r@ == json::pretty_json(JsonModel::Object(json::member_models(settings@))) + "\n"@,
{
    proof {
        json::lemma_object_model(settings);
    }
    let body = print_json_pretty(&Json::Object(settings));
    glue(body.as_str(), "\n")
}

/// The line that keeps the settings file out of commits.
pub open spec fn exclude_line(settings_path: Seq<char>) -> Seq<char> {
    "/"@ + settings_path
}

/// One of the lines of an exclude file names the settings file.
pub open spec fn already_excluded(existing: Seq<char>, settings_path: Seq<char>) -> bool {
    exists|i: int|
        0 <= i < text::pieces(existing, '\n').len() && text::trimmed(
            #[trigger] text::pieces(existing, '\n')[i],
        ) == exclude_line(settings_path)
}

/// What to append to an exclude file, if it does not name the settings file yet.
pub fn exclude_addition(existing: &str, harness: &Harness) -> (r: Option<String>)
    ensures
        r is None <==> already_excluded(existing@, harness.settings_path@),
        r matches Some(added) ==> added@ == (if existing@.len() > 0 && existing@.last() != '\n' {
            "\n"@
        } else {
            ""@
        }) + "# CVC: machine-specific "@ + harness.label@ + " hook path, never committed\n"@
            + exclude_line(harness.settings_path@) + "\n"@,
{
    let wanted = glue("/", harness.settings_path.as_str());
    let lines = split_text(existing, '\n');
    let ghost all = text::pieces(existing@, '\n');
    let n: usize = lines.len();
    let mut i: usize = 0;
    while i < n
        invariant
            i <= n,
            n == lines@.len(),
            all == text::pieces(existing@, '\n'),
            all == lines.deep_view(),
            wanted@ == exclude_line(harness.settings_path@),
            forall|k: int| 0 <= k < i ==> text::trimmed(#[trigger] all[k]) != wanted@,
        decreases n - i,
    {
        assert(all[i as int] == lines@[i as int]@);
        if text_equal(trim(lines[i].as_str()).as_str(), wanted.as_str()) {
            assert(text::trimmed(all[i as int]) == wanted@);
            return None;
        }
        i += 1;
    }
    let chars = chars_of(existing);
    let lead = if chars.len() > 0 && chars[chars.len() - 1] != '\n' {
        "\n"
    } else {
        ""
    };
    let mut added = glue3(lead, "# CVC: machine-specific ", harness.label.as_str());
    added.append(" hook path, never committed\n");
    added.append(wanted.as_str());
    added.append("\n");
    Some(added)
}

proof fn lemma_renewed_entry(sig: Seq<char>, e: JsonModel, command: Seq<char>)
    requires
        carries_signature(sig, command),
    ensures
        is_ours(sig, e) == is_ours(sig, renewed_entry(sig, e, command)),
        !is_stale(sig, renewed_entry(sig, e, command), command),
        renewed_entry(sig, renewed_entry(sig, e, command), command) == renewed_entry(sig, e, command),
{
    if is_ours(sig, e) {
        json::lemma_with_member(
            e->Object_0,
            "command"@,
            JsonModel::Text(command),
            "command"@,
        );
    }
}

proof fn lemma_renewed_group(sig: Seq<char>, g: JsonModel, command: Seq<char>)
    requires
        carries_signature(sig, command),
    ensures
        group_ours(sig, g) == group_ours(sig, renewed_group(sig, g, command)),
        !group_stale(sig, renewed_group(sig, g, command), command),
        renewed_group(sig, renewed_group(sig, g, command), command) == renewed_group(sig, g, command),
{
    match entries_of(g) {
        Some(entries) => {
            let renewed = renewed_entries(sig, entries, command);
            let r = renewed_group(sig, g, command);
            json::lemma_with_member(g->Object_0, "hooks"@, JsonModel::List(renewed), "hooks"@);
            assert(entries_of(r) == Some(renewed));
            assert forall|i: int| 0 <= i < entries.len() implies is_ours(sig, #[trigger] entries[i])
                == is_ours(sig, renewed[i]) && !is_stale(sig, renewed[i], command) && renewed_entry(sig, 
                renewed[i],
                command,
            ) == renewed[i] by {
                lemma_renewed_entry(sig, entries[i], command);
            }
            if some_ours(sig, entries) {
                let i = choose|i: int| 0 <= i < entries.len() && is_ours(sig, #[trigger] entries[i]);
                assert(is_ours(sig, renewed[i]));
            }
            if some_ours(sig, renewed) {
                let i = choose|i: int| 0 <= i < renewed.len() && is_ours(sig, #[trigger] renewed[i]);
                assert(is_ours(sig, entries[i]));
            }
            if some_stale(sig, renewed, command) {
                let i = choose|i: int|
                    0 <= i < renewed.len() && is_stale(sig, #[trigger] renewed[i], command);
                assert(is_ours(sig, entries[i]) == is_ours(sig, renewed[i]));
            }
            assert(renewed_entries(sig, renewed, command) =~= renewed) by {
                assert forall|i: int| 0 <= i < renewed.len() implies renewed_entries(sig, 
                    renewed,
                    command,
                )[i] == renewed[i] by {
                    let _ = entries[i];
                    lemma_renewed_entry(sig, entries[i], command);
                }
            }
        },
        None => {},
    }
}

proof fn lemma_new_group(sig: Seq<char>, command: Seq<char>)
    requires
        carries_signature(sig, command),
    ensures
        group_ours(sig, new_group(command)),
        !group_stale(sig, new_group(command), command),
        renewed_group(sig, new_group(command), command) == new_group(command),
{
    let g = new_group(command);
    let entry = JsonModel::Object(
        seq![
            ("command"@, JsonModel::Text(command)),
            ("timeout"@, JsonModel::Number(json::json_number(HOOK_TIMEOUT_SECS))),
            ("type"@, JsonModel::Text("command"@)),
        ],
    );
    let entries = seq![entry];
    assert(g->Object_0[0] == ("hooks"@, JsonModel::List(entries)));
    assert(json::find_member(g->Object_0, "hooks"@, 0) == Some(0int));
    assert(entries_of(g) == Some(entries));
    assert(entry->Object_0[0] == ("command"@, JsonModel::Text(command)));
    assert(json::find_member(entry->Object_0, "command"@, 0) == Some(0int));
    assert(entry_command(entry) == Some(command));
    assert(is_ours(sig, entries[0]));
    assert(!some_stale(sig, entries, command));
    assert(json::with_member(entry->Object_0, "command"@, JsonModel::Text(command))
        =~= entry->Object_0);
    assert(renewed_entries(sig, entries, command) =~= entries);
    assert(json::with_member(g->Object_0, "hooks"@, JsonModel::List(entries)) =~= g->Object_0);
}

proof fn lemma_renewed_groups(sig: Seq<char>, groups: Seq<JsonModel>, command: Seq<char>)
    requires
        carries_signature(sig, command),
    ensures
        any_ours(sig, renewed_groups(sig, groups, command)),
        !any_stale(sig, renewed_groups(sig, groups, command), command),
        renewed_groups(sig, renewed_groups(sig, groups, command), command) == renewed_groups(sig, groups, command),
{
    let r = renewed_groups(sig, groups, command);
    lemma_new_group(sig, command);
    assert forall|i: int| 0 <= i < r.len() implies !group_stale(sig, #[trigger] r[i], command)
        && renewed_group(sig, r[i], command) == r[i] by {
        if i < groups.len() {
            lemma_renewed_group(sig, groups[i], command);
        }
    }
    if any_ours(sig, groups) {
        let i = choose|i: int| 0 <= i < groups.len() && group_ours(sig, #[trigger] groups[i]);
        lemma_renewed_group(sig, groups[i], command);
        assert(group_ours(sig, r[i]));
    } else {
        assert(r.last() == new_group(command));
        assert(group_ours(sig, r[groups.len() as int]));
    }
    assert(r.map_values(|g: JsonModel| renewed_group(sig, g, command)) =~= r);
}

/// The event has its entries: installing it again changes nothing.
spec fn settled(sig: Seq<char>, hooks: Seq<(Seq<char>, JsonModel)>, event: HookEvent, command: Seq<char>) -> bool {
    match groups_of(hooks, event.name()) {
        Some(groups) => {
            &&& any_ours(sig, groups)
            &&& !any_stale(sig, groups, command)
            &&& json::with_member(
                hooks,
                event.name(),
                JsonModel::List(renewed_groups(sig, groups, command)),
            ) == hooks
        },
        None => false,
    }
}

proof fn lemma_event_settled(sig: Seq<char>, h: HooksModel, event: HookEvent, command: Seq<char>)
    requires
        carries_signature(sig, command),
        event_installed(sig, h, event, command) is Ok,
    ensures
        settled(sig, event_installed(sig, h, event, command)->Ok_0.hooks, event, command),
{
    let groups = groups_of(h.hooks, event.name())->0;
    lemma_renewed_groups(sig, groups, command);
    json::lemma_with_member(
        h.hooks,
        event.name(),
        JsonModel::List(renewed_groups(sig, groups, command)),
        event.name(),
    );
}

proof fn lemma_event_stays_settled(
    sig: Seq<char>,
    h: HooksModel,
    event: HookEvent,
    other: HookEvent,
    command: Seq<char>,
)
    requires
        event != other,
        event_installed(sig, h, event, command) is Ok,
        settled(sig, h.hooks, other, command),
    ensures
        settled(sig, event_installed(sig, h, event, command)->Ok_0.hooks, other, command),
{
    lemma_event_names();
    let groups = groups_of(h.hooks, event.name())->0;
    let value = JsonModel::List(renewed_groups(sig, groups, command));
    let t = event_installed(sig, h, event, command)->Ok_0.hooks;
    json::lemma_with_member(h.hooks, event.name(), value, other.name());
    let held = groups_of(h.hooks, other.name())->0;
    assert(groups_of(t, other.name()) == Some(held));
    // The value of the other event already is what an installation makes of it.
    let wanted = JsonModel::List(renewed_groups(sig, held, command));
    json::lemma_find_member(h.hooks, other.name(), 0);
    json::lemma_find_member(t, other.name(), 0);
    json::lemma_slot(h.hooks, other.name(), 0);
    assert(json::find_member(h.hooks, other.name(), 0) is Some) by {
        if json::find_member(h.hooks, other.name(), 0) is None {
            assert(held =~= Seq::<JsonModel>::empty());
        }
    }
    let k = json::find_member(h.hooks, other.name(), 0)->0;
    assert(h.hooks.update(k, (other.name(), wanted)) == h.hooks);
    assert(h.hooks[k] == (other.name(), wanted));
    assert(json::member(JsonModel::Object(t), other.name()) == Some(wanted));
    let j = json::find_member(t, other.name(), 0)->0;
    assert(t[j].1 == wanted);
    assert(json::with_member(t, other.name(), wanted) =~= t);
}

/// Installing again changes nothing: every event keeps its entries, and the file
/// need not be written.
pub proof fn law_install_is_idempotent(sig: Seq<char>, settings: Seq<(Seq<char>, JsonModel)>, command: Seq<char>)
    requires
        carries_signature(sig, command),
        installed(sig, settings, command) is Ok,
    ensures
        installed(sig, installed(sig, settings, command)->Ok_0.settings, command) == Ok::<
            InstalledModel,
            SettingsFault,
        >(
            InstalledModel {
                settings: installed(sig, settings, command)->Ok_0.settings,
                action: InstallAction::AlreadyPresent,
                changed: false,
            },
        ),
{
    let hooks = match json::member(JsonModel::Object(settings), "hooks"@) {
        Some(JsonModel::Object(hooks)) => hooks,
        _ => Seq::empty(),
    };
    let h0 = HooksModel { hooks, existed: false, changed: false };
    let h1 = event_installed(sig, h0, HookEvent::PostToolUse, command)->Ok_0;
    let h2 = event_installed(sig, h1, HookEvent::Stop, command)->Ok_0;
    let h3 = event_installed(sig, h2, HookEvent::SessionEnd, command)->Ok_0;
    lemma_event_settled(sig, h0, HookEvent::PostToolUse, command);
    lemma_event_settled(sig, h1, HookEvent::Stop, command);
    lemma_event_stays_settled(sig, h1, HookEvent::Stop, HookEvent::PostToolUse, command);
    lemma_event_settled(sig, h2, HookEvent::SessionEnd, command);
    lemma_event_stays_settled(sig, h2, HookEvent::SessionEnd, HookEvent::PostToolUse, command);
    lemma_event_stays_settled(sig, h2, HookEvent::SessionEnd, HookEvent::Stop, command);
    let done = installed(sig, settings, command)->Ok_0.settings;
    json::lemma_with_member(settings, "hooks"@, JsonModel::Object(h3.hooks), "hooks"@);
    assert(json::member(JsonModel::Object(done), "hooks"@) == Some(JsonModel::Object(h3.hooks)));
    let g0 = HooksModel { hooks: h3.hooks, existed: false, changed: false };
    let g1 = HooksModel { hooks: h3.hooks, existed: true, changed: false };
    assert(event_installed(sig, g0, HookEvent::PostToolUse, command) == Ok::<HooksModel, SettingsFault>(
        g1,
    ));
    assert(event_installed(sig, g1, HookEvent::Stop, command) == Ok::<HooksModel, SettingsFault>(g1));
    assert(event_installed(sig, g1, HookEvent::SessionEnd, command) == Ok::<HooksModel, SettingsFault>(
        g1,
    ));
}

/// An installation leaves every other setting as it was.
pub proof fn law_install_keeps_other_settings(
    sig: Seq<char>,
    settings: Seq<(Seq<char>, JsonModel)>,
    command: Seq<char>,
    name: Seq<char>,
)
    requires
        installed(sig, settings, command) is Ok,
        name != "hooks"@,
    ensures
        json::member(JsonModel::Object(installed(sig, settings, command)->Ok_0.settings), name)
            == json::member(JsonModel::Object(settings), name),
{
    let hooks = match json::member(JsonModel::Object(settings), "hooks"@) {
        Some(JsonModel::Object(hooks)) => hooks,
        _ => Seq::empty(),
    };
    let h = hooks_installed(sig, hooks, command)->Ok_0;
    json::lemma_with_member(settings, "hooks"@, JsonModel::Object(h.hooks), name);
}

/// A group without an entry of ours is left as it is.
proof fn lemma_other_group(sig: Seq<char>, g: JsonModel, command: Seq<char>)
    requires
        !group_ours(sig, g),
    ensures
        renewed_group(sig, g, command) == g,
{
    match entries_of(g) {
        Some(entries) => {
            let renewed = renewed_entries(sig, entries, command);
            assert forall|i: int| 0 <= i < entries.len() implies renewed[i] == entries[i] by {
                assert(!is_ours(sig, entries[i]));
            }
            assert(renewed =~= entries);
            let members = g->Object_0;
            json::lemma_find_member(members, "hooks"@, 0);
            assert(json::with_member(members, "hooks"@, JsonModel::List(entries)) =~= members);
        },
        None => {},
    }
}

/// An entry after an installation: as it was where it is not ours, else with the
/// command in it and every other member as it was.
pub open spec fn entry_keeps(
    sig: Seq<char>,
    was: JsonModel,
    now: JsonModel,
    command: Seq<char>,
) -> bool {
    if is_ours(sig, was) {
        &&& json::member(now, "command"@) == Some(JsonModel::Text(command))
        &&& forall|name: Seq<char>| name != "command"@ ==> #[trigger] json::member(now, name)
            == json::member(was, name)
    } else {
        now == was
    }
}

/// A group after an installation: as it was where no entry of it is ours, else
/// with each entry in its place and every other member as it was.
pub open spec fn group_keeps(
    sig: Seq<char>,
    was: JsonModel,
    now: JsonModel,
    command: Seq<char>,
) -> bool {
    if group_ours(sig, was) {
        let before = entries_of(was)->0;
        &&& entries_of(now) is Some
        &&& entries_of(now)->0.len() == before.len()
        &&& forall|i: int|
            0 <= i < before.len() ==> entry_keeps(
                sig,
                #[trigger] before[i],
                entries_of(now)->0[i],
                command,
            )
        &&& forall|name: Seq<char>| name != "hooks"@ ==> #[trigger] json::member(now, name)
            == json::member(was, name)
    } else {
        now == was
    }
}

/// The event is as it was, or is new, or has every group in its place, with what
/// is not ours in it as it was; what is new stands behind the groups.
pub open spec fn event_keeps(
    sig: Seq<char>,
    before: Seq<(Seq<char>, JsonModel)>,
    after: Seq<(Seq<char>, JsonModel)>,
    event: Seq<char>,
    command: Seq<char>,
) -> bool {
    let was = json::member(JsonModel::Object(before), event);
    let now = json::member(JsonModel::Object(after), event);
    ||| now == was
    ||| was is None
    ||| was->0 is List && now is Some && now->0 is List && was->0->List_0.len() <= now->0->List_0.len()
        && forall|j: int|
        0 <= j < was->0->List_0.len() ==> group_keeps(
            sig,
            #[trigger] was->0->List_0[j],
            now->0->List_0[j],
            command,
        )
}

proof fn lemma_group_keeps(sig: Seq<char>, g: JsonModel, command: Seq<char>)
    ensures
        group_keeps(sig, g, renewed_group(sig, g, command), command),
{
    if group_ours(sig, g) {
        let entries = entries_of(g)->0;
        let renewed = renewed_entries(sig, entries, command);
        let now = renewed_group(sig, g, command);
        json::lemma_with_member(g->Object_0, "hooks"@, JsonModel::List(renewed), "hooks"@);
        assert(entries_of(now) == Some(renewed));
        assert forall|i: int| 0 <= i < entries.len() implies entry_keeps(
            sig,
            #[trigger] entries[i],
            renewed[i],
            command,
        ) by {
            let e = entries[i];
            if is_ours(sig, e) {
                let value = JsonModel::Text(command);
                assert forall|name: Seq<char>| name != "command"@ implies #[trigger] json::member(
                    renewed[i],
                    name,
                ) == json::member(e, name) by {
                    json::lemma_with_member(e->Object_0, "command"@, value, name);
                }
                json::lemma_with_member(e->Object_0, "command"@, value, "command"@);
            }
        }
        assert forall|name: Seq<char>| name != "hooks"@ implies #[trigger] json::member(now, name)
            == json::member(g, name) by {
            json::lemma_with_member(g->Object_0, "hooks"@, JsonModel::List(renewed), name);
        }
    } else {
        lemma_other_group(sig, g, command);
    }
}

proof fn lemma_event_keeps(
    sig: Seq<char>,
    h: HooksModel,
    installing: HookEvent,
    command: Seq<char>,
    event: Seq<char>,
)
    requires
        event_installed(sig, h, installing, command) is Ok,
    ensures
        event_keeps(
            sig,
            h.hooks,
            event_installed(sig, h, installing, command)->Ok_0.hooks,
            event,
            command,
        ),
        event != installing.name() ==> json::member(
            JsonModel::Object(event_installed(sig, h, installing, command)->Ok_0.hooks),
            event,
        ) == json::member(JsonModel::Object(h.hooks), event),
{
    let groups = groups_of(h.hooks, installing.name())->0;
    let now = renewed_groups(sig, groups, command);
    json::lemma_with_member(h.hooks, installing.name(), JsonModel::List(now), event);
    assert forall|j: int| 0 <= j < groups.len() implies group_keeps(
        sig,
        #[trigger] groups[j],
        now[j],
        command,
    ) by {
        lemma_group_keeps(sig, groups[j], command);
        assert(now[j] == renewed_group(sig, groups[j], command));
    }
}

/// The events have different names.
proof fn lemma_event_names()
    ensures
        HookEvent::PostToolUse.name() != HookEvent::Stop.name(),
        HookEvent::PostToolUse.name() != HookEvent::SessionEnd.name(),
        HookEvent::Stop.name() != HookEvent::SessionEnd.name(),
{
    reveal_strlit("PostToolUse");
    reveal_strlit("Stop");
    reveal_strlit("SessionEnd");
    assert("PostToolUse"@[0] == 'P');
    assert("Stop"@[1] == 't');
    assert("SessionEnd"@[1] == 'e');
    assert("Stop"@[0] == 'S');
    assert("SessionEnd"@[0] == 'S');
}

/// An installation touches nothing that is not ours: an event it does not install
/// stays as it is. In every other one each group stays in its place, as it is where
/// it has no entry of ours. Where it has one, every other entry and every other
/// member of the group stays as it is, in its place, and of an entry of ours
/// everything but the command.
pub proof fn law_install_keeps_other_hooks(
    sig: Seq<char>,
    settings: Seq<(Seq<char>, JsonModel)>,
    hooks: Seq<(Seq<char>, JsonModel)>,
    command: Seq<char>,
    event: Seq<char>,
)
    requires
        json::member(JsonModel::Object(settings), "hooks"@) == Some(JsonModel::Object(hooks)),
        installed(sig, settings, command) is Ok,
    ensures
        ({
            let after = json::member(
                JsonModel::Object(installed(sig, settings, command)->Ok_0.settings),
                "hooks"@,
            );
            &&& after is Some && after->0 is Object
            &&& event_keeps(sig, hooks, after->0->Object_0, event, command)
            &&& event != HookEvent::PostToolUse.name() && event != HookEvent::Stop.name() && event
                != HookEvent::SessionEnd.name() ==> json::member(after->0, event) == json::member(
                JsonModel::Object(hooks),
                event,
            )
        }),
{
    let h0 = HooksModel { hooks, existed: false, changed: false };
    let h1 = event_installed(sig, h0, HookEvent::PostToolUse, command)->Ok_0;
    let h2 = event_installed(sig, h1, HookEvent::Stop, command)->Ok_0;
    let h3 = event_installed(sig, h2, HookEvent::SessionEnd, command)->Ok_0;
    lemma_event_names();
    lemma_event_keeps(sig, h0, HookEvent::PostToolUse, command, event);
    lemma_event_keeps(sig, h1, HookEvent::Stop, command, event);
    lemma_event_keeps(sig, h2, HookEvent::SessionEnd, command, event);
    json::lemma_with_member(settings, "hooks"@, JsonModel::Object(h3.hooks), "hooks"@);
}

proof fn lemma_cleaned_group(sig: Seq<char>, g: JsonModel)
    ensures
        !group_ours(sig, cleaned_group(sig, g)),
{
    match entries_of(g) {
        Some(entries) => {
            let keep = |e: JsonModel| !is_ours(sig, e);
            let kept = cleaned_entries(sig, entries);
            json::lemma_with_member(g->Object_0, "hooks"@, JsonModel::List(kept), "hooks"@);
            assert(entries_of(cleaned_group(sig, g)) == Some(kept));
            assert forall|i: int| 0 <= i < kept.len() implies !is_ours(sig, #[trigger] kept[i]) by {
                entries.lemma_filter_pred(keep, i);
            }
        },
        None => {},
    }
}

proof fn lemma_cleaned_groups(sig: Seq<char>, groups: Seq<JsonModel>, k: nat)
    requires
        k <= groups.len(),
    ensures
        !any_ours(sig, cleaned_groups(sig, groups, k)),
    decreases k,
{
    if k > 0 {
        lemma_cleaned_groups(sig, groups, (k - 1) as nat);
        lemma_cleaned_group(sig, groups[k - 1]);
        let before = cleaned_groups(sig, groups, (k - 1) as nat);
        let r = cleaned_groups(sig, groups, k);
        assert forall|i: int| 0 <= i < r.len() implies !group_ours(sig, #[trigger] r[i]) by {
            if i < before.len() {
                assert(r[i] == before[i]);
            }
        }
    }
}

proof fn lemma_any_ours(sig: Seq<char>, groups: Seq<JsonModel>, k: nat)
    requires
        k <= groups.len(),
    ensures
        ours_in_groups(sig, groups, k) == 0 <==> !any_ours(sig, groups.take(k as int)),
        groups.take(groups.len() as int) == groups,
    decreases k,
{
    assert(groups.take(groups.len() as int) =~= groups);
    if k > 0 {
        let g = groups[k - 1];
        let now = groups.take(k as int);
        let was = groups.take(k - 1);
        lemma_any_ours(sig, groups, (k - 1) as nat);
        if entries_of(g) is Some {
            lemma_cleaned_len(sig, entries_of(g)->0);
        }
        if any_ours(sig, was) {
            let i = choose|i: int| 0 <= i < was.len() && group_ours(sig, #[trigger] was[i]);
            assert(now[i] == was[i]);
        }
        if group_ours(sig, g) {
            assert(now[k - 1] == g);
        }
        if any_ours(sig, now) && !group_ours(sig, g) {
            let i = choose|i: int| 0 <= i < now.len() && group_ours(sig, #[trigger] now[i]);
            assert(was[i] == now[i]);
        }
    }
}

proof fn lemma_hooks_without_ours(sig: Seq<char>, hooks: Seq<(Seq<char>, JsonModel)>, k: nat)
    requires
        k <= hooks.len(),
        ours_in_hooks(sig, hooks, k) == 0,
    ensures
        hooks_clean(sig, hooks.take(k as int)),
    decreases k,
{
    if k > 0 {
        lemma_hooks_without_ours(sig, hooks, (k - 1) as nat);
        let now = hooks.take(k as int);
        let was = hooks.take(k - 1);
        match hooks[k - 1].1 {
            JsonModel::List(groups) => {
                lemma_any_ours(sig, groups, groups.len());
            },
            _ => {},
        }
        assert forall|i: int| 0 <= i < now.len() implies ((#[trigger] now[i]).1 matches JsonModel::List(
            groups,
        ) ==> !any_ours(sig, groups)) by {
            if i < k - 1 {
                assert(now[i] == was[i]);
            }
        }
    }
}

/// No event of the hooks has an entry of ours.
pub open spec fn hooks_clean(sig: Seq<char>, hooks: Seq<(Seq<char>, JsonModel)>) -> bool {
    forall|i: int|
        0 <= i < hooks.len() ==> ((#[trigger] hooks[i]).1 matches JsonModel::List(groups)
            ==> !any_ours(sig, groups))
}

proof fn lemma_cleaned_hooks(sig: Seq<char>, hooks: Seq<(Seq<char>, JsonModel)>, k: nat)
    requires
        k <= hooks.len(),
    ensures
        hooks_clean(sig, cleaned_hooks(sig, hooks, k)),
    decreases k,
{
    if k > 0 {
        lemma_cleaned_hooks(sig, hooks, (k - 1) as nat);
        let before = cleaned_hooks(sig, hooks, (k - 1) as nat);
        let r = cleaned_hooks(sig, hooks, k);
        match hooks[k - 1].1 {
            JsonModel::List(groups) => {
                lemma_cleaned_groups(sig, groups, groups.len());
                lemma_any_ours(sig, groups, groups.len());
            },
            _ => {},
        }
        assert forall|i: int| 0 <= i < r.len() implies ((#[trigger] r[i]).1 matches JsonModel::List(
            groups,
        ) ==> !any_ours(sig, groups)) by {
            if i < before.len() {
                assert(r[i] == before[i]);
            }
        }
    }
}

/// Each name stands for one member.
pub open spec fn names_distinct(s: Seq<(Seq<char>, JsonModel)>) -> bool {
    forall|i: int, j: int| 0 <= i < j < s.len() ==> (#[trigger] s[i]).0 != (#[trigger] s[j]).0
}

/// A removal leaves no entry that carries the signature.
pub proof fn law_uninstall_leaves_nothing(sig: Seq<char>, settings: Seq<(Seq<char>, JsonModel)>)
    requires
        names_distinct(settings),
    ensures
        json::member(JsonModel::Object(uninstalled(sig, settings).0), "hooks"@) matches Some(
            JsonModel::Object(hooks),
        ) ==> hooks_clean(sig, hooks),
{
    let name = "hooks"@;
    json::lemma_find_member(settings, name, 0);
    match json::find_member(settings, name, 0) {
        Some(k) => match settings[k].1 {
            JsonModel::Object(hooks) => {
                lemma_cleaned_hooks(sig, hooks, hooks.len());
                let cleaned = cleaned_hooks(sig, hooks, hooks.len());
                let t = uninstalled(sig, settings).0;
                json::lemma_find_member(t, name, 0);
                if ours_in_hooks(sig, hooks, hooks.len()) == 0 {
                    lemma_hooks_without_ours(sig, hooks, hooks.len());
                    assert(hooks.take(hooks.len() as int) =~= hooks);
                } else if cleaned.len() == 0 {
                    assert forall|i: int| 0 <= i < t.len() implies (#[trigger] t[i]).0 != name by {
                        let was = if i < k {
                            i
                        } else {
                            i + 1
                        };
                        assert(t[i] == settings[was]);
                        assert(settings[k].0 == name);
                    }
                    assert(json::find_member(t, name, 0) is None);
                } else {
                    assert(t[k] == (name, JsonModel::Object(cleaned)));
                    assert forall|i: int| 0 <= i < k implies (#[trigger] t[i]).0 != name by {
                        assert(t[i] == settings[i]);
                    }
                    assert(json::find_member(t, name, 0) == Some(k));
                }
            },
            _ => {},
        },
        None => {},
    }
}

/// A removal leaves every other setting as it was.
pub proof fn law_uninstall_keeps_other_settings(
    sig: Seq<char>,
    settings: Seq<(Seq<char>, JsonModel)>,
    i: int,
)
    requires
        0 <= i < settings.len(),
        settings[i].0 != "hooks"@,
    ensures
        uninstalled(sig, settings).0.contains(settings[i]),
{
    let name = "hooks"@;
    let t = uninstalled(sig, settings).0;
    json::lemma_find_member(settings, name, 0);
    match json::find_member(settings, name, 0) {
        Some(k) => {
            if t.len() < settings.len() && i > k {
                assert(t[i - 1] == settings[i]);
            } else {
                assert(t[i] == settings[i]);
            }
        },
        None => {
            assert(t[i] == settings[i]);
        },
    }
}

/// What a removal leaves of a group that stays: all of it where no entry of it is
/// ours, else the group without those entries.
pub open spec fn group_left(sig: Seq<char>, g: JsonModel) -> JsonModel {
    if group_ours(sig, g) {
        cleaned_group(sig, g)
    } else {
        g
    }
}

proof fn lemma_group_kept(sig: Seq<char>, groups: Seq<JsonModel>, k: nat, j: int)
    requires
        0 <= j < k <= groups.len(),
        group_stays(sig, groups[j]),
    ensures
        cleaned_groups(sig, groups, k).contains(group_left(sig, groups[j])),
    decreases k,
{
    let r = cleaned_groups(sig, groups, k);
    let before = cleaned_groups(sig, groups, (k - 1) as nat);
    let left = group_left(sig, groups[j]);
    if j == k - 1 {
        assert(r[r.len() - 1] == left);
    } else {
        lemma_group_kept(sig, groups, (k - 1) as nat, j);
        let at = choose|at: int| 0 <= at < before.len() && before[at] == left;
        assert(r[at] == left);
    }
}

/// The hooks hold the event, with this group among its groups.
pub open spec fn holds_group(
    hooks: Seq<(Seq<char>, JsonModel)>,
    event: Seq<char>,
    group: JsonModel,
) -> bool {
    exists|i: int|
        0 <= i < hooks.len() && (#[trigger] hooks[i]).0 == event && hooks[i].1 is List
            && hooks[i].1->List_0.contains(group)
}

proof fn lemma_hooks_kept(sig: Seq<char>, hooks: Seq<(Seq<char>, JsonModel)>, k: nat, i: int)
    requires
        0 <= i < k <= hooks.len(),
    ensures
        hooks[i].1 is List ==> forall|j: int|
            0 <= j < hooks[i].1->List_0.len() && group_stays(sig, #[trigger] hooks[i].1->List_0[j])
                ==> holds_group(
                cleaned_hooks(sig, hooks, k),
                hooks[i].0,
                group_left(sig, hooks[i].1->List_0[j]),
            ),
        hooks[i].1 is List && !any_ours(sig, hooks[i].1->List_0) || hooks[i].1 !is List
            ==> cleaned_hooks(sig, hooks, k).contains(hooks[i]),
    decreases k,
{
    let r = cleaned_hooks(sig, hooks, k);
    let before = cleaned_hooks(sig, hooks, (k - 1) as nat);
    let groups = hooks[i].1->List_0;
    if i == k - 1 {
        if hooks[i].1 is List {
            lemma_any_ours(sig, groups, groups.len());
            assert forall|j: int| 0 <= j < groups.len() && group_stays(sig, #[trigger] groups[j])
                implies holds_group(r, hooks[i].0, group_left(sig, groups[j])) by {
                lemma_group_kept(sig, groups, groups.len(), j);
                let last = r[r.len() - 1];
                if ours_in_groups(sig, groups, groups.len()) == 0 {
                    assert(groups.take(groups.len() as int)[j] == groups[j]);
                    assert(groups.contains(groups[j]));
                }
                assert(last.0 == hooks[i].0 && last.1->List_0.contains(group_left(sig, groups[j])));
            }
            if !any_ours(sig, groups) {
                assert(r[r.len() - 1] == hooks[i]);
            }
        } else {
            assert(r[r.len() - 1] == hooks[i]);
        }
    } else {
        lemma_hooks_kept(sig, hooks, (k - 1) as nat, i);
        assert forall|at: int| 0 <= at < before.len() implies r[at] == #[trigger] before[at] by {}
        if hooks[i].1 is List {
            assert forall|j: int| 0 <= j < groups.len() && group_stays(sig, #[trigger] groups[j])
                implies holds_group(r, hooks[i].0, group_left(sig, groups[j])) by {
                let left = group_left(sig, groups[j]);
                assert(holds_group(before, hooks[i].0, left));
                let at = choose|at: int|
                    0 <= at < before.len() && (#[trigger] before[at]).0 == hooks[i].0
                        && before[at].1 is List && before[at].1->List_0.contains(left);
                assert(r[at] == before[at]);
            }
        }
        if before.contains(hooks[i]) {
            let at = choose|at: int| 0 <= at < before.len() && before[at] == hooks[i];
            assert(r[at] == hooks[i]);
        }
    }
}

/// A removal takes nothing that is not ours: an event without an entry of ours
/// stays as it is, and so does a group without one, whatever else the two hold. Of
/// a group with entries of ours and others all but ours stays: the others in their
/// order, and every other member.
pub proof fn law_uninstall_keeps_other_hooks(
    sig: Seq<char>,
    settings: Seq<(Seq<char>, JsonModel)>,
    hooks: Seq<(Seq<char>, JsonModel)>,
    i: int,
)
    requires
        json::member(JsonModel::Object(settings), "hooks"@) == Some(JsonModel::Object(hooks)),
        0 <= i < hooks.len(),
    ensures
        ({
            let left = json::member(JsonModel::Object(uninstalled(sig, settings).0), "hooks"@);
            let stays = hooks[i].1 !is List || !any_ours(sig, hooks[i].1->List_0);
            &&& stays ==> left is Some && left->0 is Object && left->0->Object_0.contains(hooks[i])
            &&& hooks[i].1 is List ==> forall|j: int|
                0 <= j < hooks[i].1->List_0.len() && group_stays(
                    sig,
                    #[trigger] hooks[i].1->List_0[j],
                ) ==> left is Some && left->0 is Object && holds_group(
                    left->0->Object_0,
                    hooks[i].0,
                    group_left(sig, hooks[i].1->List_0[j]),
                )
        }),
{
    let name = "hooks"@;
    json::lemma_find_member(settings, name, 0);
    let k = json::find_member(settings, name, 0)->0;
    let cleaned = cleaned_hooks(sig, hooks, hooks.len());
    let t = uninstalled(sig, settings).0;
    lemma_hooks_kept(sig, hooks, hooks.len(), i);
    json::lemma_find_member(t, name, 0);
    if ours_in_hooks(sig, hooks, hooks.len()) == 0 {
        assert(hooks.contains(hooks[i]));
        if hooks[i].1 is List {
            let groups = hooks[i].1->List_0;
            lemma_hooks_without_ours(sig, hooks, hooks.len());
            assert(hooks.take(hooks.len() as int)[i] == hooks[i]);
            assert forall|j: int| 0 <= j < groups.len() implies holds_group(
                hooks,
                hooks[i].0,
                group_left(sig, #[trigger] groups[j]),
            ) by {
                assert(groups.contains(groups[j]));
                assert(!group_ours(sig, groups[j]));
            }
        }
    } else if cleaned.len() > 0 {
        assert(t[k] == (name, JsonModel::Object(cleaned)));
        assert forall|m: int| 0 <= m < k implies (#[trigger] t[m]).0 != name by {
            assert(t[m] == settings[m]);
        }
        assert(json::find_member(t, name, 0) == Some(k));
    }
}

proof fn lemma_cleaned_front(
    sig: Seq<char>,
    a: Seq<(Seq<char>, JsonModel)>,
    b: Seq<(Seq<char>, JsonModel)>,
    n: nat,
)
    requires
        n <= a.len(),
    ensures
        cleaned_hooks(sig, a + b, n) == cleaned_hooks(sig, a, n),
        ours_in_hooks(sig, a + b, n) == ours_in_hooks(sig, a, n),
    decreases n,
{
    if n > 0 {
        lemma_cleaned_front(sig, a, b, (n - 1) as nat);
        assert((a + b)[n - 1] == a[n - 1]);
    }
}

/// Events are cleaned one by one.
proof fn lemma_cleaned_joined(
    sig: Seq<char>,
    a: Seq<(Seq<char>, JsonModel)>,
    b: Seq<(Seq<char>, JsonModel)>,
    n: nat,
)
    requires
        n <= b.len(),
    ensures
        cleaned_hooks(sig, a + b, a.len() + n) == cleaned_hooks(sig, a, a.len()) + cleaned_hooks(
            sig,
            b,
            n,
        ),
        ours_in_hooks(sig, a + b, a.len() + n) == ours_in_hooks(sig, a, a.len()) + ours_in_hooks(
            sig,
            b,
            n,
        ),
    decreases n,
{
    if n == 0 {
        lemma_cleaned_front(sig, a, b, a.len());
        assert(cleaned_hooks(sig, a, a.len()) + cleaned_hooks(sig, b, 0) =~= cleaned_hooks(
            sig,
            a,
            a.len(),
        ));
    } else {
        lemma_cleaned_joined(sig, a, b, (n - 1) as nat);
        assert((a + b)[a.len() + n - 1] == b[n - 1]);
        assert((a.len() + n - 1) as nat == a.len() + (n - 1) as nat);
        assert(cleaned_hooks(sig, a + b, a.len() + n) =~= cleaned_hooks(sig, a, a.len())
            + cleaned_hooks(sig, b, n));
    }
}

proof fn lemma_clean_stays(sig: Seq<char>, hooks: Seq<(Seq<char>, JsonModel)>, k: nat)
    requires
        k <= hooks.len(),
        hooks_clean(sig, hooks),
    ensures
        cleaned_hooks(sig, hooks, k) == hooks.take(k as int),
    decreases k,
{
    if k > 0 {
        lemma_clean_stays(sig, hooks, (k - 1) as nat);
        match hooks[k - 1].1 {
            JsonModel::List(groups) => {
                lemma_any_ours(sig, groups, groups.len());
            },
            _ => {},
        }
    }
    assert(cleaned_hooks(sig, hooks, k) =~= hooks.take(k as int));
}

/// The group that an installation adds leaves, and no other does.
proof fn lemma_new_group_leaves(sig: Seq<char>, groups: Seq<JsonModel>, command: Seq<char>, n: nat)
    requires
        carries_signature(sig, command),
        !any_ours(sig, groups),
        n <= groups.len() + 1,
    ensures
        n <= groups.len() ==> cleaned_groups(sig, groups.push(new_group(command)), n)
            == groups.take(n as int),
        n == groups.len() + 1 ==> cleaned_groups(sig, groups.push(new_group(command)), n)
            == groups,
    decreases n,
{
    let all = groups.push(new_group(command));
    if n > 0 {
        lemma_new_group_leaves(sig, groups, command, (n - 1) as nat);
        if n <= groups.len() {
            assert(all[n - 1] == groups[n - 1]);
            assert(!group_ours(sig, groups[n - 1]));
            assert(cleaned_groups(sig, all, n) =~= groups.take(n as int));
        } else {
            let g = new_group(command);
            let entries = entries_of(g)->0;
            lemma_new_group(sig, command);
            assert(groups.take(groups.len() as int) =~= groups);
            assert(json::find_member(g->Object_0, "hooks"@, 0) == Some(0int));
            assert(entries.len() == 1);
            lemma_cleaned_len(sig, entries);
        }
    } else {
        assert(groups.take(0) =~= Seq::empty());
    }
}

proof fn lemma_one_event(sig: Seq<char>, event: (Seq<char>, JsonModel))
    ensures
        event.1 matches JsonModel::List(groups) ==> {
            &&& ours_in_hooks(sig, seq![event], 1) == ours_in_groups(sig, groups, groups.len())
            &&& !any_ours(sig, groups) ==> cleaned_hooks(sig, seq![event], 1) == seq![event]
        },
{
    let one = seq![event];
    reveal_with_fuel(cleaned_hooks, 2);
    reveal_with_fuel(ours_in_hooks, 2);
    match event.1 {
        JsonModel::List(groups) => {
            lemma_any_ours(sig, groups, groups.len());
            if !any_ours(sig, groups) {
                assert(cleaned_hooks(sig, one, 1) =~= one);
            }
        },
        _ => {},
    }
}

/// What cleaning leaves of hooks does not depend on an event being installed, where
/// the event was absent or has groups, none of them ours.
proof fn lemma_event_goes(
    sig: Seq<char>,
    hooks: Seq<(Seq<char>, JsonModel)>,
    name: Seq<char>,
    command: Seq<char>,
)
    requires
        carries_signature(sig, command),
        event_can_go(sig, hooks, name),
    ensures
        ({
            let groups = groups_of(hooks, name)->0;
            let after = json::with_member(
                hooks,
                name,
                JsonModel::List(renewed_groups(sig, groups, command)),
            );
            &&& cleaned_hooks(sig, after, after.len()) == cleaned_hooks(sig, hooks, hooks.len())
            &&& ours_in_hooks(sig, after, after.len()) > 0
        }),
{
    let groups = groups_of(hooks, name)->0;
    let new = groups.push(new_group(command));
    let after = json::with_member(
        hooks,
        name,
        JsonModel::List(renewed_groups(sig, groups, command)),
    );
    assert(renewed_groups(sig, groups, command) =~= new) by {
        assert forall|i: int| 0 <= i < groups.len() implies renewed_group(
            sig,
            #[trigger] groups[i],
            command,
        ) == groups[i] by {
            assert(!group_ours(sig, groups[i]));
            lemma_other_group(sig, groups[i], command);
        }
    }
    lemma_new_group(sig, command);
    lemma_new_group_leaves(sig, groups, command, new.len());
    assert(new[groups.len() as int] == new_group(command));
    assert(any_ours(sig, new));
    lemma_any_ours(sig, new, new.len());
    let now = (name, JsonModel::List(new));
    lemma_one_event(sig, now);
    json::lemma_find_member(hooks, name, 0);
    json::lemma_slot(hooks, name, 0);
    reveal_with_fuel(cleaned_hooks, 2);
    match json::find_member(hooks, name, 0) {
        Some(k) => {
            let a = hooks.take(k);
            let b = hooks.skip(k + 1);
            let was = hooks[k];
            lemma_one_event(sig, was);
            assert(hooks =~= a + (seq![was] + b));
            assert(after =~= a + (seq![now] + b));
            assert(cleaned_hooks(sig, seq![now], 1) =~= seq![was]);
            lemma_cleaned_joined(sig, seq![was], b, b.len());
            lemma_cleaned_joined(sig, seq![now], b, b.len());
            lemma_cleaned_joined(sig, a, seq![was] + b, (1 + b.len()) as nat);
            lemma_cleaned_joined(sig, a, seq![now] + b, (1 + b.len()) as nat);
        },
        None => {
            let k = json::slot(hooks, name, 0);
            let a = hooks.take(k);
            let b = hooks.skip(k);
            assert(hooks =~= a + b);
            assert(after =~= a + (seq![now] + b));
            assert(cleaned_hooks(sig, seq![now], 1) =~= Seq::empty());
            lemma_cleaned_joined(sig, seq![now], b, b.len());
            lemma_cleaned_joined(sig, a, b, b.len());
            lemma_cleaned_joined(sig, a, seq![now] + b, (1 + b.len()) as nat);
            assert(Seq::<(Seq<char>, JsonModel)>::empty() + cleaned_hooks(sig, b, b.len())
                =~= cleaned_hooks(sig, b, b.len()));
        },
    }
}

/// The event is absent, or has groups, none of them with an entry of ours.
pub open spec fn event_can_go(
    sig: Seq<char>,
    hooks: Seq<(Seq<char>, JsonModel)>,
    name: Seq<char>,
) -> bool {
    match json::member(JsonModel::Object(hooks), name) {
        None => true,
        Some(JsonModel::List(groups)) => groups.len() > 0 && !any_ours(sig, groups),
        Some(_) => false,
    }
}

/// A removal takes back an installation: settings without an entry of ours are what
/// they were. Left out are settings with an empty object of hooks or an empty list
/// for one of the events, which leaves with what was added to it.
pub proof fn law_removal_undoes_installation(
    sig: Seq<char>,
    settings: Seq<(Seq<char>, JsonModel)>,
    command: Seq<char>,
)
    requires
        carries_signature(sig, command),
        match json::member(JsonModel::Object(settings), "hooks"@) {
            None => true,
            Some(JsonModel::Object(hooks)) => {
                &&& hooks.len() > 0
                &&& hooks_clean(sig, hooks)
                &&& event_can_go(sig, hooks, HookEvent::PostToolUse.name())
                &&& event_can_go(sig, hooks, HookEvent::Stop.name())
                &&& event_can_go(sig, hooks, HookEvent::SessionEnd.name())
            },
            Some(_) => false,
        },
    ensures
        installed(sig, settings, command) is Ok,
        uninstalled(sig, installed(sig, settings, command)->Ok_0.settings).0 == settings,
{
    let name = "hooks"@;
    let hooks = match json::member(JsonModel::Object(settings), name) {
        Some(JsonModel::Object(hooks)) => hooks,
        _ => Seq::empty(),
    };
    let first = HookEvent::PostToolUse.name();
    let second = HookEvent::Stop.name();
    let third = HookEvent::SessionEnd.name();
    let h0 = HooksModel { hooks, existed: false, changed: false };
    let h1 = event_installed(sig, h0, HookEvent::PostToolUse, command)->Ok_0;
    let h2 = event_installed(sig, h1, HookEvent::Stop, command)->Ok_0;
    let h3 = event_installed(sig, h2, HookEvent::SessionEnd, command)->Ok_0;
    lemma_event_names();
    let g1 = JsonModel::List(renewed_groups(sig, groups_of(hooks, first)->0, command));
    lemma_event_goes(sig, hooks, first, command);
    json::lemma_with_member(hooks, first, g1, second);
    json::lemma_with_member(hooks, first, g1, third);
    let g2 = JsonModel::List(renewed_groups(sig, groups_of(h1.hooks, second)->0, command));
    lemma_event_goes(sig, h1.hooks, second, command);
    json::lemma_with_member(h1.hooks, second, g2, third);
    lemma_event_goes(sig, h2.hooks, third, command);
    lemma_clean_stays(sig, hooks, hooks.len());
    assert(hooks.take(hooks.len() as int) =~= hooks);
    let value = JsonModel::Object(h3.hooks);
    let done = json::with_member(settings, name, value);
    json::lemma_find_member(settings, name, 0);
    json::lemma_slot(settings, name, 0);
    let k = match json::find_member(settings, name, 0) {
        Some(k) => k,
        None => json::slot(settings, name, 0),
    };
    json::lemma_find_member(done, name, 0);
    assert(done[k] == (name, value));
    assert forall|i: int| 0 <= i < k implies (#[trigger] done[i]).0 != name by {
        assert(done[i] == settings[i]);
    }
    assert(json::find_member(done, name, 0) == Some(k));
    if json::find_member(settings, name, 0) is Some {
        assert(done.update(k, (name, JsonModel::Object(hooks))) =~= settings);
    } else {
        assert(done.remove(k) =~= settings);
    }
}

} // verus!
