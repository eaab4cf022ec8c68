//! What an ingest run decides: the session it is for, whether its cursor can be
//! trusted, and which planned interactions are new. Every run reads the
//! transcript from the session's stored cursor, plans the closed responses of
//! that window and skips those already recorded, by their deterministic
//! identities.

use crate::bounded;
use crate::bounded::truncate_to_boundary;
use crate::import;
use crate::import::texts_of_ids;
use crate::models;
use crate::models::{
    ContextItem, ContextModel, Conversation, Interaction, InteractionId, InteractionModel,
    Timestamp, ToolExecution, ToolModel, copy_contexts, copy_opt_text, copy_tools, texts_equal,
};
use crate::planning;
use crate::planning::{
    PathAlias, Plan, PlannedInteraction, PlannedModel, absolute, is_under, path_steps,
};
use crate::privacy;
use crate::privacy::is_safe_identifier;
use crate::text;
use crate::text::{bytes_len, glue, glue3, is_blank, split_text, trim};
use crate::textset::TextSet;
use crate::transcript;
use crate::transcript::{LineModel, ParsedLine, TranscriptError, quote_text};
use vstd::prelude::*;
use vstd::string::*;
use vstd::utf8::*;

verus! {

/// One read never buffers more than this; a transcript beyond it is treated as
/// corruption rather than an ingest target.
pub const MAX_READ_BYTES: u64 = 536_870_912;

pub const MAX_DERIVED_TITLE_BYTES: usize = 80;

/// How an ingest run reads.
#[derive(Debug, Clone, Copy, PartialEq, Eq, Structural)]
pub enum IngestMode {
    /// Hook-driven mid-session read: only closed responses are recorded and
    /// a streaming or result-awaiting response stays pending.
    Incremental,
    /// Stop/SessionEnd or operator-driven read: every response is complete.
    Final,
}

impl IngestMode {
    /// Whether every response counts as complete.
    pub fn is_final(self) -> (r: bool)
        ensures
            r == (self == IngestMode::Final),
    {
        match self {
            IngestMode::Final => true,
            IngestMode::Incremental => false,
        }
    }
}

/// Why an ingest run is refused.
#[derive(Debug, PartialEq, Eq)]
pub enum IngestError {
    Transcript(TranscriptError),
    /// The transcript at this path.
    NotRegularFile(String),
    TooLarge,
    InvalidSession(String),
    UnknownSession,
}

/// A path in double quotes, with what does not show in it escaped.
pub uninterp spec fn quoted_path(path: Seq<char>) -> Seq<char>;

/// Quotes a path.
///
/// Calls `format!` with the `Debug` form of `std::path::Path`, which depends on the
/// path alone and is named [`quoted_path`].
#[verifier::external_body]
fn quote_path(path: &str) -> (r: String)
    ensures
        r@ == quoted_path(path@),
{
    format!("{:?}", std::path::Path::new(path))
}

impl IngestError {
    /// The message for people, on a transcript of the harness with this label.
    pub open spec fn text(self, label: Seq<char>) -> Seq<char> {
        match self {
            IngestError::Transcript(error) => error@.text(label),
            IngestError::NotRegularFile(path) => "transcript "@ + quoted_path(path@)
                + " is not a regular file"@,
            IngestError::TooLarge => "transcript exceeds the supported size"@,
            IngestError::InvalidSession(session) => "session id "@ + transcript::quoted_text(
                session@,
            ) + " is not a safe identifier"@,
            IngestError::UnknownSession =>
            "transcript file name does not name a session; pass the session id explicitly"@,
        }
    }

    /// The message for people, on a transcript of the harness with this label.
    pub fn message(&self, label: &str) -> (r: String)
        ensures
            r@ == self.text(label@),
    {
        match self {
            IngestError::Transcript(error) => error.message(label),
            IngestError::NotRegularFile(path) => glue3(
                "transcript ",
                quote_path(path.as_str()).as_str(),
                " is not a regular file",
            ),
            IngestError::TooLarge => "transcript exceeds the supported size".to_owned(),
            IngestError::InvalidSession(session) => glue3(
                "session id ",
                quote_text(session.as_str()).as_str(),
                " is not a safe identifier",
            ),
            IngestError::UnknownSession =>
            "transcript file name does not name a session; pass the session id explicitly".to_owned(),
        }
    }
}

/// What an ingest run did.
#[derive(Debug, PartialEq, Eq)]
pub struct IngestReport {
    pub session_id: String,
    pub inserted: usize,
    pub already_present: usize,
    pub pending_responses: usize,
    pub cursor: u64,
    pub transcript_len: u64,
}

/// The session of a run: the one that was named, or else the stem of the
/// transcript's file name. It has to be a safe identifier.
pub fn resolve_session(session_id: Option<&str>, file_stem: Option<&str>) -> (r: Result<
    String,
    IngestError,
>)
    ensures
        match (session_id, file_stem) {
            (Some(s), _) => if privacy::safe_identifier(s@) {
                r matches Ok(x) && x@ == s@
            } else {
                r matches Err(IngestError::InvalidSession(x)) && x@ == s@
            },
            (None, Some(s)) => if privacy::safe_identifier(s@) {
                r matches Ok(x) && x@ == s@
            } else {
                r matches Err(IngestError::InvalidSession(x)) && x@ == s@
            },
            (None, None) => r matches Err(IngestError::UnknownSession),
        },
{
    let session = match session_id {
        Some(s) => s,
        None => match file_stem {
            Some(s) => s,
            None => {
                return Err(IngestError::UnknownSession);
            },
        },
    };
    if is_safe_identifier(session) {
        Ok(session.to_owned())
    } else {
        Err(IngestError::InvalidSession(session.to_owned()))
    }
}

/// The stored cursor is trusted only when it still lands on a line boundary of
/// the current file. `previous` is the byte before the cursor, where the file
/// has one.
pub fn cursor_is_consistent(offset: u64, len: u64, previous: Option<u8>) -> (r: bool)
    ensures
        r == (offset == 0 || (offset <= len && previous == Some(10u8))),
{
    if offset == 0 {
        return true;
    }
    if offset > len {
        return false;
    }
    match previous {
        Some(b) => b == 10,
        None => false,
    }
}

/// Where reading starts: at the cursor where it can be trusted, else at the
/// beginning. The deterministic identities make a full read harmless.
pub fn read_from(cursor: Option<u64>, len: u64, previous: Option<u8>) -> (r: u64)
    ensures
        r == (match cursor {
            Some(offset) => if offset <= len && previous == Some(10u8) {
                offset
            } else {
                0
            },
            None => 0,
        }),
        r <= len || r == 0,
{
    match cursor {
        Some(offset) => if cursor_is_consistent(offset, len, previous) {
            offset
        } else {
            0
        },
        None => 0,
    }
}

/// Checks that a read stayed within bounds.
pub fn check_read(bytes: u64) -> (r: Result<(), IngestError>)
    ensures
        r is Ok <==> bytes <= MAX_READ_BYTES,
        r is Err ==> r->Err_0 is TooLarge,
{
    if bytes > MAX_READ_BYTES {
        Err(IngestError::TooLarge)
    } else {
        Ok(())
    }
}

/// The spellings of working directories among the first `n` lines, each once.
pub open spec fn spellings(lines: Seq<LineModel>, n: nat) -> Seq<Seq<char>>
    decreases n,
{
    if n == 0 || n > lines.len() {
        Seq::empty()
    } else {
        let before = spellings(lines, (n - 1) as nat);
        match lines[n - 1] {
            LineModel::Entry(e) => match e.cwd {
                Some(cwd) => if before.contains(cwd) {
                    before
                } else {
                    before.push(cwd)
                },
                None => before,
            },
            _ => before,
        }
    }
}

/// The working directories that a transcript spells, each once.
pub fn cwd_spellings(lines: &Vec<ParsedLine>) -> (r: Vec<String>)
    ensures
        r.deep_view() == spellings(transcript::line_models(lines@), lines@.len()),
{
    let ghost ls = transcript::line_models(lines@);
    let mut seen = TextSet::new();
    assert(seen.list.deep_view() =~= Seq::empty());
    let mut n: usize = 0;
    while n < lines.len()
        invariant
            n <= lines.len(),
            seen.wf(),
            ls == transcript::line_models(lines@),
            seen.list.deep_view() == spellings(ls, n as nat),
        decreases lines.len() - n,
    {
        assert(ls[n as int] == lines@[n as int]@);
        match &lines[n] {
            ParsedLine::Entry(e) => match &e.cwd {
                Some(cwd) => {
                    seen.insert(cwd.clone());
                },
                None => {},
            },
            _ => {},
        }
        n += 1;
    }
    let TextSet { list, index } = seen;
    list
}

/// Two paths of one kind with the same components.
pub open spec fn same_path(a: Seq<char>, b: Seq<char>) -> bool {
    planning::is_absolute(a) == planning::is_absolute(b) && planning::steps(a)
        == planning::steps(b)
}

/// The first components of a path are those of another; every path lies under
/// the empty one.
pub open spec fn path_under(a: Seq<char>, b: Seq<char>) -> bool {
    b.len() == 0 || planning::is_absolute(a) == planning::is_absolute(b) && planning::lies_under(
        planning::steps(a),
        planning::steps(b),
    )
}

/// A spelling that is kept as an alias: it is not the worktree itself, and its
/// canonical directory lies inside the worktree.
pub open spec fn is_alias(spelled: Seq<char>, canonical: Seq<char>, root: Seq<char>) -> bool {
    !same_path(spelled, root) && path_under(canonical, root)
}

/// The aliases that are kept, among the first `n`.
pub open spec fn kept_aliases(
    all: Seq<(Seq<char>, Seq<char>)>,
    root: Seq<char>,
    n: nat,
) -> Seq<(Seq<char>, Seq<char>)>
    decreases n,
{
    if n == 0 || n > all.len() {
        Seq::empty()
    } else {
        let before = kept_aliases(all, root, (n - 1) as nat);
        if is_alias(all[n - 1].0, all[n - 1].1, root) {
            before.push(all[n - 1])
        } else {
            before
        }
    }
}

/// Transcript spellings that resolve inside the worktree, so that tool paths
/// written through a symlinked or non-canonical checkout path still attribute.
/// `resolved` pairs each spelling with its canonical directory.
pub fn path_aliases(resolved: &Vec<PathAlias>, worktree_root: &str) -> (r: Vec<PathAlias>)
    ensures
        planning::alias_models(r@) == kept_aliases(
            planning::alias_models(resolved@),
            worktree_root@,
            resolved@.len(),
        ),
{
    let ghost all = planning::alias_models(resolved@);
    let root = path_steps(worktree_root);
    let rooted = absolute(worktree_root);
    let mut out: Vec<PathAlias> = Vec::new();
    assert(planning::alias_models(out@) =~= Seq::empty());
    let mut n: usize = 0;
    while n < resolved.len()
        invariant
            n <= resolved.len(),
            all == planning::alias_models(resolved@),
            rooted == planning::is_absolute(worktree_root@),
            root.deep_view() == planning::steps(worktree_root@),
            planning::alias_models(out@) == kept_aliases(all, worktree_root@, n as nat),
        decreases resolved.len() - n,
    {
        let a = &resolved[n];
        assert(all[n as int] == (a.spelled@, a.canonical@));
        let spelled = path_steps(a.spelled.as_str());
        let canonical = path_steps(a.canonical.as_str());
        let same = absolute(a.spelled.as_str()) == rooted && texts_equal(&spelled, &root);
        let inside = worktree_root.is_empty() || absolute(a.canonical.as_str()) == rooted
            && is_under(&canonical, &root);
        if !same && inside {
            let ghost held = planning::alias_models(out@);
            out.push(PathAlias { spelled: a.spelled.clone(), canonical: a.canonical.clone() });
            assert(planning::alias_models(out@) =~= held.push(all[n as int]));
        }
        n += 1;
    }
    out
}

/// The first line that is not blank, without white space at its ends, from
/// position `k` on.
pub open spec fn first_line(lines: Seq<Seq<char>>, k: int) -> Option<Seq<char>>
    decreases lines.len() - k,
{
    if k < 0 || k >= lines.len() {
        None
    } else if text::trimmed(lines[k]).len() > 0 {
        Some(text::trimmed(lines[k]))
    } else {
        first_line(lines, k + 1)
    }
}

/// The title that a prompt gives: its first line that is not blank, cut where it
/// is long.
pub open spec fn title_from(prompt: Seq<char>) -> Option<Seq<char>> {
    match first_line(text::pieces(prompt, '\n'), 0) {
        None => None,
        Some(line) => if text::byte_len(line) <= MAX_DERIVED_TITLE_BYTES {
            Some(line)
        } else {
            Some(bounded::head_of(line, MAX_DERIVED_TITLE_BYTES as int) + "…"@)
        },
    }
}

/// The title that a prompt gives.
pub fn derive_title(prompt: &str) -> (r: Option<String>)
    ensures
        models::opt_text(r) == title_from(prompt@),
{
    let lines = split_text(prompt, '\n');
    let ghost ls = lines.deep_view();
    let mut k: usize = 0;
    while k < lines.len()
        invariant
            k <= lines.len(),
            ls == lines.deep_view(),
            ls == text::pieces(prompt@, '\n'),
            first_line(ls, 0) == first_line(ls, k as int),
        decreases lines.len() - k,
    {
        assert(ls[k as int] == lines@[k as int]@);
        let line = trim(lines[k].as_str());
        if !line.as_str().is_empty() {
            if bytes_len(line.as_str()) <= MAX_DERIVED_TITLE_BYTES {
                return Some(line);
            }
            return Some(glue(truncate_to_boundary(line.as_str(), MAX_DERIVED_TITLE_BYTES), "…"));
        }
        k += 1;
    }
    None
}

/// The title of the conversation: the one the transcript sets, the one the store
/// has, the one the first prompt gives, or that of an untitled session of the harness.
pub open spec fn conversation_title(
    set: Option<Seq<char>>,
    stored: Option<Seq<char>>,
    prompt: Option<Seq<char>>,
    label: Seq<char>,
) -> Seq<char> {
    if set is Some {
        set->0
    } else if stored is Some && text::trimmed(stored->0).len() > 0 {
        stored->0
    } else {
        match prompt {
            Some(p) => match title_from(p) {
                Some(t) => t,
                None => label + " session"@,
            },
            None => label + " session"@,
        }
    }
}

/// The moment the conversation began: the one the store has, that of the first
/// planned interaction, or now.
pub open spec fn conversation_start(
    stored: Option<Timestamp>,
    planned: Seq<PlannedModel>,
    now: Timestamp,
) -> Timestamp {
    match stored {
        Some(t) => t,
        None => if planned.len() > 0 {
            planned[0].timestamp
        } else {
            now
        },
    }
}

/// The conversation that a plan belongs to.
pub fn conversation_for(
    session: &str,
    plan: &Plan,
    existing: &Option<Conversation>,
    label: &str,
    now: Timestamp,
) -> (r: Conversation)
    ensures
        r@.id == session@,
        r@.title == conversation_title(
            plan@.title,
            match *existing {
                Some(c) => Some(c@.title),
                None => None,
            },
            plan@.first_human_prompt,
            label@,
        ),
        r@.created_at == conversation_start(
            match *existing {
                Some(c) => Some(c@.created_at),
                None => None,
            },
            plan@.interactions,
            now,
        ),
{
    let stored: Option<String> = match existing {
        Some(c) => if is_blank(c.title.as_str()) {
            None
        } else {
            Some(c.title.clone())
        },
        None => None,
    };
    let title = match &plan.title {
        Some(t) => t.clone(),
        None => match stored {
            Some(t) => t,
            None => match &plan.first_human_prompt {
                Some(p) => match derive_title(p.as_str()) {
                    Some(t) => t,
                    None => glue(label, " session"),
                },
                None => glue(label, " session"),
            },
        },
    };
    assert(plan@.interactions.len() == plan.interactions@.len());
    let created_at = match existing {
        Some(c) => c.created_at,
        None => if plan.interactions.len() > 0 {
            assert(plan@.interactions[0] == plan.interactions@[0]@);
            plan.interactions[0].timestamp
        } else {
            now
        },
    };
    Conversation { id: session.to_owned(), title, created_at }
}

/// An interaction to record, with what was captured beside it.
pub struct CaptureRow {
    pub interaction: Interaction,
    pub context_items: Vec<ContextItem>,
    pub tool_executions: Vec<ToolExecution>,
}

/// The contents of [`CaptureRow`].
#[verifier::ext_equal]
pub struct CaptureRowModel {
    pub interaction: InteractionModel,
    pub context_items: Seq<ContextModel>,
    pub tool_executions: Seq<ToolModel>,
}

impl View for CaptureRow {
    type V = CaptureRowModel;

    open spec fn view(&self) -> CaptureRowModel {
        CaptureRowModel {
            interaction: self.interaction@,
            context_items: models::context_models(self.context_items@),
            tool_executions: models::tool_models(self.tool_executions@),
        }
    }
}

/// The contents of rows.
pub open spec fn row_models(s: Seq<CaptureRow>) -> Seq<CaptureRowModel> {
    s.map_values(|r: CaptureRow| r@)
}

/// The rows that planned interactions become: those not recorded yet, among the
/// first `n`. A parent that is neither recorded nor in the batch breaks the
/// chain rather than failing the batch.
pub open spec fn new_rows(
    planned: Seq<PlannedModel>,
    session: Seq<char>,
    known: Set<Seq<char>>,
    n: nat,
) -> Seq<CaptureRowModel>
    decreases n,
{
    if n == 0 || n > planned.len() {
        Seq::empty()
    } else {
        let before = new_rows(planned, session, known, (n - 1) as nat);
        let p = planned[n - 1];
        if known.contains(p.id.text()) {
            before
        } else {
            let parent_id = match p.parent_id {
                Some(q) => if known.contains(q.text()) || batch_ids(
                    planned,
                    known,
                    (n - 1) as nat,
                ).contains(q.text()) {
                    Some(q)
                } else {
                    None
                },
                None => None,
            };
            before.push(
                CaptureRowModel {
                    interaction: InteractionModel {
                        id: p.id,
                        conversation_id: session,
                        parent_id,
                        timestamp: p.timestamp,
                        author: p.author,
                        user_prompt: p.user_prompt,
                        model_name: p.model_name,
                        model_cot: p.model_cot,
                        model_response: p.model_response,
                        source_request_id: Some(p.response_key),
                    },
                    context_items: p.context_items,
                    tool_executions: p.tool_executions,
                },
            )
        }
    }
}

/// The identities in the batch, of the first `n` planned interactions.
pub open spec fn batch_ids(planned: Seq<PlannedModel>, known: Set<Seq<char>>, n: nat) -> Set<Seq<char>>
    decreases n,
{
    if n == 0 || n > planned.len() {
        Set::empty()
    } else {
        let before = batch_ids(planned, known, (n - 1) as nat);
        if known.contains(planned[n - 1].id.text()) {
            before
        } else {
            before.insert(planned[n - 1].id.text())
        }
    }
}

/// The batch of a run, and how many planned interactions were already recorded.
pub struct Batch {
    pub rows: Vec<CaptureRow>,
    pub already_present: usize,
}

/// Chooses the planned interactions to record. `known` holds those of the
/// planned interactions and their parents that the store has.
pub fn build_batch(planned: &Vec<PlannedInteraction>, session: &str, known: &Vec<InteractionId>) -> (r:
    Batch)
    ensures
        row_models(r.rows@) == new_rows(
            planning::planned_models(planned@),
            session@,
            import::id_texts(known@),
            planned@.len(),
        ),
        r.already_present + r.rows@.len() == planned@.len(),
{
    let ghost ps = planning::planned_models(planned@);
    let recorded = texts_of_ids(known);
    let ghost ks = recorded@;
    let mut batch = TextSet::new();
    let mut rows: Vec<CaptureRow> = Vec::new();
    let mut already_present: usize = 0;
    assert(row_models(rows@) =~= Seq::empty());
    let mut n: usize = 0;
    while n < planned.len()
        invariant
            n <= planned.len(),
            recorded.wf(),
            batch.wf(),
            ps == planning::planned_models(planned@),
            ks == recorded@,
            batch@ == batch_ids(ps, ks, n as nat),
            row_models(rows@) == new_rows(ps, session@, ks, n as nat),
            already_present + rows@.len() == n,
        decreases planned.len() - n,
    {
        let p = &planned[n];
        assert(ps[n as int] == p@);
        let id = p.id.as_str();
        if recorded.contains(id.as_str()) {
            already_present += 1;
        } else {
            let parent_id = match p.parent_id {
                Some(q) => {
                    let text = q.as_str();
                    if recorded.contains(text.as_str()) || batch.contains(text.as_str()) {
                        Some(q)
                    } else {
                        None
                    }
                },
                None => None,
            };
            let row = CaptureRow {
                interaction: Interaction {
                    id: p.id,
                    conversation_id: session.to_owned(),
                    parent_id,
                    timestamp: p.timestamp,
                    author: p.author,
                    user_prompt: p.user_prompt.clone(),
                    model_name: copy_opt_text(&p.model_name),
                    model_cot: copy_opt_text(&p.model_cot),
                    model_response: copy_opt_text(&p.model_response),
                    source_request_id: Some(p.response_key.clone()),
                },
                context_items: copy_contexts(&p.context_items),
                tool_executions: copy_tools(&p.tool_executions),
            };
            let ghost held = row_models(rows@);
            let ghost x = row@;
            rows.push(row);
            assert(row_models(rows@) =~= held.push(x));
            batch.insert(id);
        }
        n += 1;
    }
    Batch { rows, already_present }
}

/// What a run reports: interactions that the store suppressed count as present.
pub fn ingest_report(
    session: String,
    inserted: usize,
    already_present: usize,
    suppressed: usize,
    plan: &Plan,
    transcript_len: u64,
) -> (r: IngestReport)
    requires
        already_present + suppressed <= usize::MAX,
    ensures
        r.session_id@ == session@,
        r.inserted == inserted,
        r.already_present == already_present + suppressed,
        r.pending_responses == plan@.pending_responses,
        r.cursor == plan@.cursor_offset,
        r.transcript_len == transcript_len,
{
    IngestReport {
        session_id: session,
        inserted,
        already_present: already_present + suppressed,
        pending_responses: plan.pending_responses,
        cursor: plan.cursor_offset,
        transcript_len,
    }
}

/// Every row is one of a suppressed interaction.
pub open spec fn all_suppressed(rows: Seq<CaptureRowModel>, suppressed: Set<Seq<char>>) -> bool {
    forall|i: int|
        0 <= i < rows.len() ==> suppressed.contains((#[trigger] rows[i]).interaction.id.text())
}

/// Ingesting the same window a second time records nothing: once the store has
/// every planned interaction that is not suppressed, only suppressed ones are left,
/// and where it has all of them no row is left.
pub proof fn law_ingest_is_idempotent(
    planned: Seq<PlannedModel>,
    session: Seq<char>,
    known: Set<Seq<char>>,
    suppressed: Set<Seq<char>>,
    n: nat,
)
    requires
        n <= planned.len(),
        forall|k: int|
            0 <= k < planned.len() ==> known.contains((#[trigger] planned[k]).id.text())
                || suppressed.contains(planned[k].id.text()),
    ensures
        all_suppressed(new_rows(planned, session, known, n), suppressed),
        (forall|k: int| 0 <= k < planned.len() ==> known.contains((#[trigger] planned[k]).id.text()))
            ==> new_rows(planned, session, known, n).len() == 0,
    decreases n,
{
    if n > 0 {
        law_ingest_is_idempotent(planned, session, known, suppressed, (n - 1) as nat);
        let p = planned[n - 1];
        let rows = new_rows(planned, session, known, n);
        assert forall|i: int| 0 <= i < rows.len() implies suppressed.contains(
            (#[trigger] rows[i]).interaction.id.text(),
        ) by {
            let before = new_rows(planned, session, known, (n - 1) as nat);
            if i < before.len() {
                assert(rows[i] == before[i]);
            }
        }
    }
}

} // verus!
