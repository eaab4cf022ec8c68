//! What the local store decides: names in its columns, links and their
//! attribution, suppression, sharing, and the preparation of imported turns.

use crate::capture;
use crate::capture::{Capture, CaptureModel, prepare};
use crate::derivation;
use crate::derivation::{is_automatic_link_type, is_safe_commit_sha};
use crate::digest;
use crate::json;
use crate::json::{Json, JsonModel, parse_json};
use crate::linker;
use crate::linker::{MAX_MOMENT, MIN_MOMENT};
use crate::models;
use crate::models::{
    Author, CaptureSource, Conversation, ConversationModel, Interaction, InteractionId,
    InteractionModel, PublicationState, Timestamp, Tombstone, TombstoneModel,
    TombstoneReasonCode, ToolStatus, opt_text_equal,
};
use crate::privacy;
use crate::privacy::{PrivacyError, scrub};
use crate::sync;
use crate::text;
use crate::text::{glue, glue3, starts_with, text_equal};
use vstd::hash_set::*;
use vstd::prelude::*;
use vstd::string::*;

verus! {

/// Why the store refused an operation.
#[derive(Debug)]
pub enum DbError {
    Sqlite(String),
    Migration(String),
    Timestamp(i64),
    Io(String),
    InvalidLink(String),
    LinkConflict(String),
    SquashQueueCapacity { limit: i64 },
    ResidualStorageWarning,
}

/// Whether an operation is worth trying again.
#[derive(Debug, Clone, Copy, PartialEq, Eq, Structural)]
pub enum RetryDisposition {
    Retryable,
    Permanent,
}

/// The error refuses the operation, in these words.
pub open spec fn refuses(e: DbError, said: Seq<char>) -> bool {
    e matches DbError::Migration(s) && s@ == said
}

/// The error says that a link is invalid, in these words.
pub open spec fn bad_link(e: DbError, said: Seq<char>) -> bool {
    e matches DbError::InvalidLink(s) && s@ == said
}

/// The error says that provenance is in conflict, in these words.
pub open spec fn conflict(e: DbError, said: Seq<char>) -> bool {
    e matches DbError::LinkConflict(s) && s@ == said
}

impl DbError {
    /// Trouble with the storage and lost races pass; everything else stays.
    pub fn retry_disposition(&self) -> (r: RetryDisposition)
        ensures
            r == if *self is Sqlite || *self is Io || *self is LinkConflict
                || *self is SquashQueueCapacity {
                RetryDisposition::Retryable
            } else {
                RetryDisposition::Permanent
            },
    {
        match self {
            DbError::Sqlite(_)
            | DbError::Io(_)
            | DbError::LinkConflict(_)
            | DbError::SquashQueueCapacity { .. } => RetryDisposition::Retryable,
            DbError::Migration(_)
            | DbError::Timestamp(_)
            | DbError::InvalidLink(_)
            | DbError::ResidualStorageWarning => RetryDisposition::Permanent,
        }
    }
}

pub(crate) fn refusal(said: &str) -> (r: DbError)
    ensures
        refuses(r, said@),
{
    DbError::Migration(said.to_owned())
}

pub(crate) fn invalid_link(said: &str) -> (r: DbError)
    ensures
        bad_link(r, said@),
{
    DbError::InvalidLink(said.to_owned())
}

pub(crate) fn link_conflict(said: &str) -> (r: DbError)
    ensures
        conflict(r, said@),
{
    DbError::LinkConflict(said.to_owned())
}

/// Observable result of best-effort cleanup. This reports database state only;
/// it intentionally makes no claim about the erasure of storage media.
#[derive(Clone, Copy, Debug, PartialEq, Eq)]
pub struct CleanupReport {
    pub busy: i64,
    pub log_frames: i64,
    pub checkpointed_frames: i64,
    pub wal_bytes: u64,
}

/// The word for an author.
pub open spec fn author_word(a: Author) -> Seq<char> {
    match a {
        Author::Human => "human"@,
        Author::Agent => "agent"@,
        Author::System => "system"@,
        Author::External => "external"@,
    }
}

/// The word for an author.
pub fn author_name(a: Author) -> (r: &'static str)
    ensures
        r@ == author_word(a),
{
    match a {
        Author::Human => "human",
        Author::Agent => "agent",
        Author::System => "system",
        Author::External => "external",
    }
}

/// The author that a word names; any other word stands for an outside author.
pub open spec fn author_named(word: Seq<char>) -> Author {
    if word == "human"@ {
        Author::Human
    } else if word == "agent"@ {
        Author::Agent
    } else if word == "system"@ {
        Author::System
    } else {
        Author::External
    }
}

/// The author that a word names.
pub fn author_of(word: &str) -> (r: Author)
    ensures
        r == author_named(word@),
{
    if text_equal(word, "human") {
        Author::Human
    } else if text_equal(word, "agent") {
        Author::Agent
    } else if text_equal(word, "system") {
        Author::System
    } else {
        Author::External
    }
}

/// An author is read back from its own word.
pub proof fn law_author_words(a: Author)
    ensures
        author_named(author_word(a)) == a,
{
    reveal_strlit("human");
    reveal_strlit("agent");
    reveal_strlit("system");
    reveal_strlit("external");
    assert("human"@[0] != "agent"@[0]);
    assert("human"@[0] != "system"@[0]);
    assert("human"@[0] != "external"@[0]);
    assert("agent"@[0] != "system"@[0]);
    assert("agent"@[0] != "external"@[0]);
    assert("system"@[0] != "external"@[0]);
}

/// The word for where a capture came from.
pub fn capture_source_name(s: CaptureSource) -> (r: &'static str)
    ensures
        r@ == match s {
            CaptureSource::Mcp => "mcp"@,
            CaptureSource::VscodePassive => "vscode_passive"@,
            CaptureSource::VscodeExplicit => "vscode_explicit"@,
            CaptureSource::CliRun => "cli_run"@,
            CaptureSource::SyncImport => "sync_import"@,
            CaptureSource::Legacy => "legacy"@,
        },
{
    match s {
        CaptureSource::Mcp => "mcp",
        CaptureSource::VscodePassive => "vscode_passive",
        CaptureSource::VscodeExplicit => "vscode_explicit",
        CaptureSource::CliRun => "cli_run",
        CaptureSource::SyncImport => "sync_import",
        CaptureSource::Legacy => "legacy",
    }
}

/// The word for the outcome of a tool call.
pub fn tool_status_name(s: ToolStatus) -> (r: &'static str)
    ensures
        r@ == match s {
            ToolStatus::Success => "success"@,
            ToolStatus::Failure => "failure"@,
        },
{
    match s {
        ToolStatus::Success => "success",
        ToolStatus::Failure => "failure",
    }
}

/// The word for a state of publication.
pub fn publication_name(s: PublicationState) -> (r: &'static str)
    ensures
        r@ == match s {
            PublicationState::Pending => "pending"@,
            PublicationState::Published => "published"@,
            PublicationState::Unknown => "unknown"@,
        },
{
    match s {
        PublicationState::Pending => "pending",
        PublicationState::Published => "published",
        PublicationState::Unknown => "unknown",
    }
}

/// The word for a reason of deletion.
pub open spec fn reason_word(c: TombstoneReasonCode) -> Seq<char> {
    match c {
        TombstoneReasonCode::UserRequested => "user_requested"@,
        TombstoneReasonCode::Security => "security"@,
        TombstoneReasonCode::Retention => "retention"@,
    }
}

/// The word for a reason of deletion.
pub fn reason_name(c: TombstoneReasonCode) -> (r: &'static str)
    ensures
        r@ == reason_word(c),
{
    match c {
        TombstoneReasonCode::UserRequested => "user_requested",
        TombstoneReasonCode::Security => "security",
        TombstoneReasonCode::Retention => "retention",
    }
}

/// The reason that a word names.
pub fn reason_of(word: &str) -> (r: TombstoneReasonCode)
    ensures
        r == if word@ == "user_requested"@ {
            TombstoneReasonCode::UserRequested
        } else if word@ == "security"@ {
            TombstoneReasonCode::Security
        } else {
            TombstoneReasonCode::Retention
        },
{
    if text_equal(word, "user_requested") {
        TombstoneReasonCode::UserRequested
    } else if text_equal(word, "security") {
        TombstoneReasonCode::Security
    } else {
        TombstoneReasonCode::Retention
    }
}

/// The moment that a stored number of seconds names, if it is one.
pub fn moment_from(seconds: i64) -> (r: Result<Timestamp, DbError>)
    ensures
        linker::MIN_MOMENT <= seconds <= linker::MAX_MOMENT ==> r == Ok::<Timestamp, DbError>(
            Timestamp { seconds, nanos: 0 },
        ),
        !(linker::MIN_MOMENT <= seconds <= linker::MAX_MOMENT) ==> r == Err::<Timestamp, DbError>(
            DbError::Timestamp(seconds),
        ),
{
    if seconds < MIN_MOMENT || seconds > MAX_MOMENT {
        return Err(DbError::Timestamp(seconds));
    }
    Ok(Timestamp { seconds, nanos: 0 })
}

/// A stored interaction, column by column.
pub struct InteractionRow {
    pub id: String,
    pub conversation_id: String,
    pub parent_id: Option<String>,
    pub timestamp: i64,
    pub author: String,
    pub user_prompt: String,
    pub model_name: Option<String>,
    pub model_cot: Option<String>,
    pub model_response: Option<String>,
    pub source_request_id: Option<String>,
}

/// Why a stored interaction cannot be read.
#[derive(Debug, Clone, Copy, PartialEq, Eq, Structural)]
pub enum RowFault {
    Id,
    Timestamp(i64),
}

/// The parent that a column names; an unreadable one stands for no known
/// interaction.
pub open spec fn parent_matches(column: Option<Seq<char>>, parent: Option<InteractionId>) -> bool {
    match column {
        None => parent is None,
        Some(text) => parent is Some && match models::parsed_uuid(text) {
            Some(v) => parent->0 == (InteractionId { value: v }),
            None => true,
        },
    }
}

/// Reads a stored interaction.
pub fn interaction_from_row(row: InteractionRow) -> (r: Result<Interaction, RowFault>)
    ensures
        match r {
            Ok(i) => {
                &&& linker::MIN_MOMENT <= row.timestamp <= linker::MAX_MOMENT
                &&& models::parsed_uuid(row.id@) == Some(i@.id.value)
                &&& i@.conversation_id == row.conversation_id@
                &&& parent_matches(models::opt_text(row.parent_id), i@.parent_id)
                &&& i@.timestamp == (Timestamp { seconds: row.timestamp, nanos: 0 })
                &&& i@.author == author_named(row.author@)
                &&& i@.user_prompt == row.user_prompt@
                &&& i@.model_name == models::opt_text(row.model_name)
                &&& i@.model_cot == models::opt_text(row.model_cot)
                &&& i@.model_response == models::opt_text(row.model_response)
                &&& i@.source_request_id == models::opt_text(row.source_request_id)
            },
            Err(RowFault::Timestamp(t)) => t == row.timestamp && !(linker::MIN_MOMENT
                <= row.timestamp <= linker::MAX_MOMENT),
            Err(RowFault::Id) => linker::MIN_MOMENT <= row.timestamp <= linker::MAX_MOMENT
                && models::parsed_uuid(row.id@) is None,
        },
{
    let author = author_of(row.author.as_str());
    let timestamp = match moment_from(row.timestamp) {
        Ok(t) => t,
        Err(_) => {
            return Err(RowFault::Timestamp(row.timestamp));
        },
    };
    let id = match InteractionId::from_str(row.id.as_str()) {
        Ok(id) => id,
        Err(_) => {
            return Err(RowFault::Id);
        },
    };
    let parent_id = match &row.parent_id {
        None => None,
        Some(text) => match InteractionId::from_str(text.as_str()) {
            Ok(parent) => Some(parent),
            Err(_) => Some(InteractionId::default()),
        },
    };
    Ok(
        Interaction {
            id,
            conversation_id: row.conversation_id,
            parent_id,
            timestamp,
            author,
            user_prompt: row.user_prompt,
            model_name: row.model_name,
            model_cot: row.model_cot,
            model_response: row.model_response,
            source_request_id: row.source_request_id,
        },
    )
}

/// A stored link of an interaction to a commit: its type and attribution.
pub struct StoredLink {
    pub link_type: String,
    pub linked_by: Option<String>,
}

/// What to write for a link.
#[derive(Debug, Clone, Copy, PartialEq, Eq, Structural)]
pub enum LinkWrite {
    /// There is no such link: insert it.
    Insert,
    /// The link lacks the attribution: add it.
    Attribute,
    /// The link stands as it is.
    Keep,
}

/// Two attributions that contradict each other. A missing one makes no claim.
pub open spec fn attributions_differ(a: Option<Seq<char>>, b: Option<Seq<char>>) -> bool {
    a is Some && b is Some && a != b
}

/// What to write for a link, where nothing is in conflict.
pub open spec fn link_write(stored: Option<Option<Seq<char>>>, by: Option<Seq<char>>) -> LinkWrite {
    match stored {
        None => LinkWrite::Insert,
        Some(known) => if known is None && by is Some {
            LinkWrite::Attribute
        } else {
            LinkWrite::Keep
        },
    }
}

/// A stored link is never replaced, and an attribution that it has stays: a
/// second sighting can at most fill in a missing one.
pub proof fn law_stored_link_is_kept(known: Option<Seq<char>>, by: Option<Seq<char>>)
    ensures
        link_write(Some(known), by) != LinkWrite::Insert,
        known is Some ==> link_write(Some(known), by) == LinkWrite::Keep,
        link_write(Some(known), by) == LinkWrite::Attribute ==> known is None && by is Some,
{
}

/// The attribution of a stored link.
pub open spec fn stored_by(stored: Option<StoredLink>) -> Option<Option<Seq<char>>> {
    match stored {
        Some(link) => Some(models::opt_text(link.linked_by)),
        None => None,
    }
}

fn differ(a: &Option<String>, b: &Option<String>) -> (r: bool)
    ensures
        r == attributions_differ(models::opt_text(*a), models::opt_text(*b)),
{
    a.is_some() && b.is_some() && !opt_text_equal(a, b)
}

/// Decides on an imported link: it must have the type of the stored one and may
/// not contradict its attribution.
pub fn import_link(
    commit: &str,
    kind: &str,
    by: &Option<String>,
    stored: &Option<StoredLink>,
) -> (r: Result<LinkWrite, DbError>)
    ensures
        ({
            let valid = derivation::is_commit_sha(commit@) && sync::embedded_link_type(kind@);
            let clashes = stored matches Some(link) && (link.link_type@ != kind@
                || attributions_differ(models::opt_text(link.linked_by), models::opt_text(*by)));
            match r {
                Ok(w) => valid && !clashes && w == link_write(
                    stored_by(*stored),
                    models::opt_text(*by),
                ),
                Err(e) => if !valid {
                    bad_link(e, "invalid imported link"@)
                } else {
                    clashes && conflict(e, "imported link differs from existing provenance"@)
                },
            }
        }),
{
    let known_type = text_equal(kind, "generated") || text_equal(kind, "temporal") || text_equal(
        kind,
        "verified",
    );
    if !is_safe_commit_sha(commit) || !known_type {
        return Err(invalid_link("invalid imported link"));
    }
    match stored {
        None => Ok(LinkWrite::Insert),
        Some(link) => {
            if !text_equal(link.link_type.as_str(), kind) || differ(&link.linked_by, by) {
                return Err(link_conflict("imported link differs from existing provenance"));
            }
            if link.linked_by.is_none() && by.is_some() {
                Ok(LinkWrite::Attribute)
            } else {
                Ok(LinkWrite::Keep)
            }
        },
    }
}

/// Decides on a link that the linker selected.
pub fn automatic_link(
    id: &InteractionId,
    commit: &str,
    kind: &str,
    by: &Option<String>,
    stored: &Option<StoredLink>,
) -> (r: Result<LinkWrite, DbError>)
    ensures
        ({
            let place = id.text() + "@"@ + commit@;
            let other_type = stored matches Some(link) && link.link_type@ != kind@;
            let other_by = stored matches Some(link) && attributions_differ(
                models::opt_text(link.linked_by),
                models::opt_text(*by),
            );
            match r {
                Ok(w) => !other_type && !other_by && w == link_write(
                    stored_by(*stored),
                    models::opt_text(*by),
                ),
                Err(e) => if other_type {
                    conflict(e, "link type differs for "@ + place)
                } else {
                    other_by && conflict(e, "linked_by differs for "@ + place)
                },
            }
        }),
{
    match stored {
        None => Ok(LinkWrite::Insert),
        Some(link) => {
            let place = glue3(id.as_str().as_str(), "@", commit);
            if !text_equal(link.link_type.as_str(), kind) {
                let said = glue("link type differs for ", place.as_str());
                return Err(link_conflict(said.as_str()));
            }
            if differ(&link.linked_by, by) {
                let said = glue("linked_by differs for ", place.as_str());
                return Err(link_conflict(said.as_str()));
            }
            if link.linked_by.is_none() && by.is_some() {
                Ok(LinkWrite::Attribute)
            } else {
                Ok(LinkWrite::Keep)
            }
        },
    }
}

/// The first type in the list that the linker never gives.
pub open spec fn first_foreign(types: Seq<Seq<char>>, k: int) -> Option<int>
    decreases types.len() - k,
{
    if k < 0 || k >= types.len() {
        None
    } else if !derivation::automatic_link_type(types[k]) {
        Some(k)
    } else {
        first_foreign(types, k + 1)
    }
}

/// The error says that the attribution may not be kept, and why.
pub open spec fn unclean_link(e: DbError, linked_by: Seq<char>) -> bool {
    exists|p: PrivacyError| #[trigger]
        privacy::may_scrub(linked_by, Err(p)) && bad_link(e, p.text())
}

/// Checks the links of one linker decision and cleans their attribution. Nothing
/// is written unless every link passes.
pub fn check_automatic_batch(types: &Vec<String>, commit: &str, linked_by: Option<&str>) -> (r:
    Result<Option<String>, DbError>)
    ensures
        ({
            let foreign = first_foreign(types.deep_view(), 0);
            match r {
                Ok(by) => {
                    &&& foreign is None
                    &&& derivation::is_commit_sha(commit@)
                    &&& match linked_by {
                        None => by is None,
                        Some(text) => by is Some && privacy::may_scrub(text@, Ok(by->0@)),
                    }
                },
                Err(e) => if foreign is Some {
                    bad_link(e, types.deep_view()[foreign->0])
                } else if !derivation::is_commit_sha(commit@) {
                    bad_link(e, "invalid commit SHA"@)
                } else {
                    &&& linked_by is Some
                    &&& unclean_link(e, linked_by->0@)
                },
            }
        }),
{
    let ghost named = types.deep_view();
    let n: usize = types.len();
    let mut i: usize = 0;
    while i < n
        invariant
            i <= n,
            n == types@.len(),
            named == types.deep_view(),
            first_foreign(named, 0) == first_foreign(named, i as int),
        decreases n - i,
    {
        assert(named[i as int] == types@[i as int]@);
        if !is_automatic_link_type(types[i].as_str()) {
            return Err(invalid_link(types[i].as_str()));
        }
        i += 1;
    }
    if !is_safe_commit_sha(commit) {
        return Err(invalid_link("invalid commit SHA"));
    }
    match linked_by {
        None => Ok(None),
        Some(text) => match scrub(text) {
            Ok(clean) => Ok(Some(clean)),
            Err(e) => Err(invalid_link(e.message().as_str())),
        },
    }
}

/// Checks a single link with its attribution.
pub fn check_single_link(link_type: &str, commit: &str, linked_by: Option<&str>) -> (r: Result<
    Option<String>,
    DbError,
>)
    ensures
        ({
            let valid = derivation::automatic_link_type(link_type@) && derivation::is_commit_sha(
                commit@,
            );
            match r {
                Ok(by) => valid && match linked_by {
                    None => by is None,
                    Some(text) => by is Some && privacy::may_scrub(text@, Ok(by->0@)),
                },
                Err(e) => if !valid {
                    bad_link(e, "invalid automatic link"@)
                } else {
                    &&& linked_by is Some
                    &&& unclean_link(e, linked_by->0@)
                },
            }
        }),
{
    if !is_automatic_link_type(link_type) || !is_safe_commit_sha(commit) {
        return Err(invalid_link("invalid automatic link"));
    }
    match linked_by {
        None => Ok(None),
        Some(text) => match scrub(text) {
            Ok(clean) => Ok(Some(clean)),
            Err(e) => Err(invalid_link(e.message().as_str())),
        },
    }
}

/// A stored suppression record.
pub struct StoredTombstone {
    pub format: String,
    pub version: i64,
    pub reason: String,
    pub previous_node_oid: Option<String>,
    pub state: String,
}

/// What to write for a suppression record.
#[derive(Debug, Clone, Copy, PartialEq, Eq, Structural)]
pub enum TombstoneWrite {
    /// Insert it; one that came from a remote counts as published.
    Insert { published: bool },
    /// The remote shows the record that was pending: mark it published.
    Publish,
    /// It stands as it is.
    Keep,
}

/// The stored record means the same.
pub open spec fn same_suppression(stored: StoredTombstone, t: TombstoneModel) -> bool {
    &&& stored.format@ == t.format
    &&& stored.version == t.version
    &&& stored.reason@ == reason_word(t.reason_code)
    &&& models::opt_text(stored.previous_node_oid) == t.previous_node_oid
}

/// Decides on a suppression record. Records are idempotent only when their
/// immutable meaning matches exactly.
pub fn tombstone_write(stored: &Option<StoredTombstone>, t: &Tombstone, source: &str) -> (r: Result<
    TombstoneWrite,
    DbError,
>)
    ensures
        match (*stored, r) {
            (None, Ok(w)) => w == (TombstoneWrite::Insert { published: source@ == "sync"@ }),
            (None, Err(e)) => false,
            (Some(held), Ok(w)) => same_suppression(held, t@) && w == if source@ == "sync"@
                && held.state@ == "pending"@ {
                TombstoneWrite::Publish
            } else {
                TombstoneWrite::Keep
            },
            (Some(held), Err(e)) => !same_suppression(held, t@) && refuses(
                e,
                "tombstone semantic conflict"@,
            ),
        },
{
    let from_sync = text_equal(source, "sync");
    match stored {
        None => Ok(TombstoneWrite::Insert { published: from_sync }),
        Some(held) => {
            if !text_equal(held.format.as_str(), t.format.as_str()) || held.version
                != t.version as i64 || !text_equal(
                held.reason.as_str(),
                reason_name(t.reason_code),
            ) || !opt_text_equal(&held.previous_node_oid, &t.previous_node_oid) {
                return Err(refusal("tombstone semantic conflict"));
            }
            if from_sync && text_equal(held.state.as_str(), "pending") {
                Ok(TombstoneWrite::Publish)
            } else {
                Ok(TombstoneWrite::Keep)
            }
        },
    }
}

/// What a request to redact on a remote comes to.
pub enum RedactionRequest {
    /// The record exists already.
    Repeat(Tombstone),
    /// The record is to be made.
    Fresh(Tombstone),
}

/// Decides on a request to redact an interaction on one remote: repeating an
/// existing record is harmless, a new one needs share or publication authority
/// for exactly that remote.
pub fn request_redaction(
    id: &InteractionId,
    reason: TombstoneReasonCode,
    stored: Option<(i64, String, Option<String>)>,
    authorized: bool,
    now: Timestamp,
) -> (r: Result<RedactionRequest, DbError>)
    ensures
        match stored {
            Some(held) => if held.1@ != reason_word(reason) {
                r matches Err(e) && refuses(e, "remote tombstone reason conflict"@)
            } else if !(linker::MIN_MOMENT <= held.0 <= linker::MAX_MOMENT) {
                r matches Err(e) && e == DbError::Timestamp(held.0)
            } else {
                r matches Ok(RedactionRequest::Repeat(t)) && t@ == (TombstoneModel {
                    format: "cvc.tombstone/v1"@,
                    version: 1,
                    interaction_id: *id,
                    deleted_at: Timestamp { seconds: held.0, nanos: 0 },
                    reason_code: reason,
                    previous_node_oid: models::opt_text(held.2),
                })
            },
            None => if !authorized {
                r matches Err(e) && refuses(
                    e,
                    "remote redaction requires exact destination share or publication authority"@,
                )
            } else {
                r matches Ok(RedactionRequest::Fresh(t)) && t@ == (TombstoneModel {
                    format: "cvc.tombstone/v1"@,
                    version: 1,
                    interaction_id: *id,
                    deleted_at: (Timestamp { seconds: now.seconds, nanos: 0 }),
                    reason_code: reason,
                    previous_node_oid: None,
                })
            },
        },
{
    match stored {
        Some(held) => {
            if !text_equal(held.1.as_str(), reason_name(reason)) {
                return Err(refusal("remote tombstone reason conflict"));
            }
            match moment_from(held.0) {
                Err(e) => Err(e),
                Ok(deleted_at) => Ok(
                    RedactionRequest::Repeat(
                        Tombstone {
                            format: "cvc.tombstone/v1".to_owned(),
                            version: 1,
                            interaction_id: *id,
                            deleted_at,
                            reason_code: reason,
                            previous_node_oid: held.2,
                        },
                    ),
                ),
            }
        },
        None => {
            if !authorized {
                return Err(
                    refusal(
                        "remote redaction requires exact destination share or publication authority",
                    ),
                );
            }
            Ok(RedactionRequest::Fresh(Tombstone::new(*id, reason, None, now)))
        },
    }
}

/// A stored event, as far as suppression reads it. The sources are JSON text.
pub struct EventRow {
    pub event_id: String,
    pub interaction: String,
    pub sources: String,
}

/// The texts in a JSON list of texts.
pub open spec fn listed_texts(doc: JsonModel) -> Option<Seq<Seq<char>>> {
    match doc {
        JsonModel::List(items) => if forall|i: int|
            0 <= i < items.len() ==> (#[trigger] items[i]) is Text {
            Some(items.map_values(|x: JsonModel| x->Text_0))
        } else {
            None
        },
        _ => None,
    }
}

/// The sources that a stored column holds; an unreadable one holds none.
pub open spec fn column_sources(column: Seq<char>) -> Seq<Seq<char>> {
    match json::parsed_json(column) {
        Some(doc) => match listed_texts(doc) {
            Some(texts) => texts,
            None => Seq::empty(),
        },
        None => Seq::empty(),
    }
}

/// The contents of [`EventRow`].
#[verifier::ext_equal]
pub struct EventRowModel {
    pub event_id: Seq<char>,
    pub interaction: Seq<char>,
    pub sources: Seq<Seq<char>>,
}

impl View for EventRow {
    type V = EventRowModel;

    open spec fn view(&self) -> EventRowModel {
        EventRowModel {
            event_id: self.event_id@,
            interaction: self.interaction@,
            sources: column_sources(self.sources@),
        }
    }
}

/// The contents of rows.
pub open spec fn row_models(s: Seq<EventRow>) -> Seq<EventRowModel> {
    s.map_values(|x: EventRow| x@)
}

/// The row belongs to the interaction or names it among its sources.
pub open spec fn row_named(row: EventRowModel, target: InteractionId) -> bool {
    ||| row.interaction == target.text()
    ||| exists|j: int|
        0 <= j < row.sources.len() && text::has_prefix(
            #[trigger] row.sources[j],
            "legacy:"@ + target.text() + ":"@,
        )
}

/// One of the row's sources is in the set.
pub open spec fn row_draws_on(row: EventRowModel, set: Set<Seq<char>>) -> bool {
    exists|j: int| 0 <= j < row.sources.len() && set.contains(#[trigger] row.sources[j])
}

/// The set holds every event that belongs to the interaction or names it, and
/// every event that draws on one in the set.
pub open spec fn removal_closed(
    set: Set<Seq<char>>,
    rows: Seq<EventRowModel>,
    target: InteractionId,
) -> bool {
    forall|k: int|
        0 <= k < rows.len() && (row_named(#[trigger] rows[k], target) || row_draws_on(rows[k], set))
            ==> set.contains(rows[k].event_id)
}

/// The event leaves the store with the interaction: it is in every closed set.
pub open spec fn leaves(x: Seq<char>, rows: Seq<EventRowModel>, target: InteractionId) -> bool {
    forall|set: Set<Seq<char>>| #[trigger] removal_closed(set, rows, target) ==> set.contains(x)
}

/// Reads a stored list of sources.
pub fn read_sources(column: &str) -> (r: Vec<String>)
    ensures
        r.deep_view() == column_sources(column@),
{
    let mut out: Vec<String> = Vec::new();
    assert(out.deep_view() =~= Seq::<Seq<char>>::empty());
    match parse_json(column) {
        Some(Json::List(items)) => {
            let ghost doc = json::parsed_json(column@)->0;
            proof {
                json::lemma_list_model(items);
            }
            let ghost docs = json::list_models(items@);
            assert(doc == JsonModel::List(docs));
            let n: usize = items.len();
            let mut i: usize = 0;
            while i < n
                invariant
                    i <= n,
                    n == items@.len(),
                    docs == json::list_models(items@),
                    doc == JsonModel::List(docs),
                    json::parsed_json(column@) == Some(doc),
                    out@.len() == i,
                    forall|k: int| 0 <= k < i ==> (#[trigger] docs[k]) is Text,
                    forall|k: int| 0 <= k < i ==> out@[k]@ == (#[trigger] docs[k])->Text_0,
                decreases n - i,
            {
                assert(docs[i as int] == items@[i as int]@);
                match items[i].as_text() {
                    Some(text) => {
                        out.push(text.clone());
                    },
                    None => {
                        assert(!(docs[i as int] is Text));
                        assert(listed_texts(doc) is None);
                        let none: Vec<String> = Vec::new();
                        assert(none.deep_view() =~= Seq::<Seq<char>>::empty());
                        return none;
                    },
                }
                i += 1;
            }
            assert(out.deep_view() =~= docs.map_values(|x: JsonModel| x->Text_0));
            out
        },
        _ => out,
    }
}

struct ReadRow {
    event_id: String,
    named: bool,
    sources: Vec<String>,
}

fn read_event_row(row: &EventRow, target: &InteractionId) -> (r: ReadRow)
    ensures
        r.event_id@ == row@.event_id,
        r.sources.deep_view() == row@.sources,
        r.named == row_named(row@, *target),
{
    let text = target.as_str();
    let prefix = glue3("legacy:", text.as_str(), ":");
    let sources = read_sources(row.sources.as_str());
    let ghost seen = sources.deep_view();
    let n: usize = sources.len();
    let mut named: bool = text_equal(row.interaction.as_str(), text.as_str());
    let mut j: usize = 0;
    while j < n
        invariant
            j <= n,
            n == sources@.len(),
            seen == sources.deep_view(),
            seen == row@.sources,
            prefix@ == "legacy:"@ + target.text() + ":"@,
            named == (row@.interaction == target.text() || exists|a: int|
                0 <= a < j && text::has_prefix(#[trigger] seen[a], prefix@)),
        decreases n - j,
    {
        assert(seen[j as int] == sources@[j as int]@);
        if starts_with(sources[j].as_str(), prefix.as_str()) {
            assert(text::has_prefix(seen[j as int], prefix@));
            named = true;
        }
        j += 1;
    }
    ReadRow { event_id: row.event_id.clone(), named, sources }
}

fn draws(row: &ReadRow, set: &StringHashSet) -> (r: bool)
    ensures
        r == (exists|j: int|
            0 <= j < row.sources.deep_view().len() && set@.contains(
                #[trigger] row.sources.deep_view()[j],
            )),
{
    let ghost s = row.sources.deep_view();
    let n: usize = row.sources.len();
    let mut j: usize = 0;
    while j < n
        invariant
            j <= n,
            n == row.sources@.len(),
            s == row.sources.deep_view(),
            forall|a: int| 0 <= a < j ==> !set@.contains(#[trigger] s[a]),
        decreases n - j,
    {
        assert(s[j as int] == row.sources@[j as int]@);
        if set.contains(row.sources[j].as_str()) {
            assert(set@.contains(s[j as int]));
            return true;
        }
        j += 1;
    }
    false
}

spec fn row_ids(rows: Seq<EventRowModel>) -> Seq<Seq<char>> {
    rows.map_values(|x: EventRowModel| x.event_id)
}

spec fn read_as(read: Seq<ReadRow>, rows: Seq<EventRowModel>, target: InteractionId) -> bool {
    &&& read.len() == rows.len()
    &&& forall|k: int|
        0 <= k < rows.len() ==> (#[trigger] read[k]).event_id@ == rows[k].event_id
            && read[k].sources.deep_view() == rows[k].sources && read[k].named == row_named(
            rows[k],
            target,
        )
}

/// The events that leave the store with an interaction: its own, those that
/// name it, and those that draw on an event that leaves.
pub fn events_to_remove(rows: &Vec<EventRow>, target: &InteractionId) -> (r: StringHashSet)
    ensures
        removal_closed(r@, row_models(rows@), *target),
        forall|x: Seq<char>| #[trigger] r@.contains(x) <==> leaves(x, row_models(rows@), *target),
{
    let ghost ms = row_models(rows@);
    let ghost universe = row_ids(ms).to_set();
    let n: usize = rows.len();
    let mut read: Vec<ReadRow> = Vec::new();
    let mut removed = StringHashSet::new();
    let mut i: usize = 0;
    while i < n
        invariant
            i <= n,
            n == rows@.len(),
            ms == row_models(rows@),
            universe == row_ids(ms).to_set(),
            removed@.finite(),
            removed@.subset_of(universe),
            read_as(read@, ms.take(i as int), *target),
            forall|x: Seq<char>| #[trigger] removed@.contains(x) ==> leaves(x, ms, *target),
            forall|k: int|
                0 <= k < i && row_named(#[trigger] ms[k], *target) ==> removed@.contains(
                    ms[k].event_id,
                ),
        decreases n - i,
    {
        assert(ms[i as int] == rows@[i as int]@);
        let row = read_event_row(&rows[i], target);
        if row.named {
            proof {
                assert(row_ids(ms)[i as int] == ms[i as int].event_id);
                assert(row_ids(ms).contains(ms[i as int].event_id));
                assert forall|set: Set<Seq<char>>| #[trigger]
                    removal_closed(set, ms, *target) implies set.contains(
                    ms[i as int].event_id,
                ) by {}
            }
            removed.insert(row.event_id.clone());
        }
        read.push(row);
        i += 1;
    }
    assert(ms.take(n as int) =~= ms);
    let mut changed = true;
    while changed
        invariant
            n == ms.len(),
            ms == row_models(rows@),
            universe == row_ids(ms).to_set(),
            universe.finite(),
            removed@.finite(),
            removed@.subset_of(universe),
            read_as(read@, ms, *target),
            forall|x: Seq<char>| #[trigger] removed@.contains(x) ==> leaves(x, ms, *target),
            forall|k: int|
                0 <= k < ms.len() && row_named(#[trigger] ms[k], *target) ==> removed@.contains(
                    ms[k].event_id,
                ),
            !changed ==> forall|k: int|
                0 <= k < ms.len() && row_draws_on(#[trigger] ms[k], removed@) ==> removed@.contains(
                    ms[k].event_id,
                ),
        decreases universe.len() - removed@.len() + (if changed {
                1int
            } else {
                0int
            }),
    {
        changed = false;
        let ghost held = removed@.len();
        let mut i: usize = 0;
        while i < n
            invariant
                i <= n,
                n == ms.len(),
                ms == row_models(rows@),
                universe == row_ids(ms).to_set(),
                universe.finite(),
                removed@.finite(),
                removed@.subset_of(universe),
                removed@.len() >= held,
                changed ==> removed@.len() > held,
                read_as(read@, ms, *target),
                forall|x: Seq<char>| #[trigger] removed@.contains(x) ==> leaves(x, ms, *target),
                forall|k: int|
                    0 <= k < ms.len() && row_named(#[trigger] ms[k], *target) ==> removed@.contains(
                        ms[k].event_id,
                    ),
                !changed ==> forall|k: int|
                    0 <= k < i && row_draws_on(#[trigger] ms[k], removed@) ==> removed@.contains(
                        ms[k].event_id,
                    ),
            decreases n - i,
        {
            let ghost row = ms[i as int];
            assert(read@[i as int].event_id@ == row.event_id);
            if draws(&read[i], &removed) && !removed.contains(read[i].event_id.as_str()) {
                proof {
                    let x = row.event_id;
                    assert(row_ids(ms)[i as int] == x);
                    assert(row_ids(ms).contains(x));
                    assert forall|set: Set<Seq<char>>| #[trigger]
                        removal_closed(set, ms, *target) implies set.contains(x) by {
                        let j = choose|j: int|
                            0 <= j < row.sources.len() && removed@.contains(
                                #[trigger] row.sources[j],
                            );
                        assert(leaves(row.sources[j], ms, *target));
                        assert(row_draws_on(row, set));
                    }
                }
                removed.insert(read[i].event_id.clone());
                changed = true;
            }
            i += 1;
        }
        proof {
            vstd::set_lib::lemma_len_subset(removed@, universe);
        }
    }
    proof {
        assert(removal_closed(removed@, ms, *target));
    }
    removed
}

/// No event that stays in the store belongs to the deleted interaction, names
/// it, or draws on an event that left.
pub proof fn law_removal_leaves_no_reference(rows: Seq<EventRowModel>, target: InteractionId, k: int)
    requires
        0 <= k < rows.len(),
        !leaves(rows[k].event_id, rows, target),
    ensures
        !row_named(rows[k], target),
        forall|j: int|
            0 <= j < rows[k].sources.len() ==> !leaves(#[trigger] rows[k].sources[j], rows, target),
{
    let set = choose|set: Set<Seq<char>>| #[trigger]
        removal_closed(set, rows, target) && !set.contains(rows[k].event_id);
    assert(removal_closed(set, rows, target));
    assert forall|j: int| 0 <= j < rows[k].sources.len() implies !leaves(
        #[trigger] rows[k].sources[j],
        rows,
        target,
    ) by {
        if leaves(rows[k].sources[j], rows, target) {
            assert(set.contains(rows[k].sources[j]));
            assert(row_draws_on(rows[k], set));
        }
    }
}

/// Only an unchanged conversation is shared as a snapshot: as many turns as were
/// shown, each of them still in it.
pub fn check_share(actual: i64, found: &Vec<i64>) -> (r: Result<(), DbError>)
    ensures
        r is Ok <==> actual == found@.len() && forall|i: int|
            0 <= i < found@.len() ==> #[trigger] found@[i] == 1,
        r matches Err(e) ==> refuses(e, "conversation changed during authorization; retry"@),
{
    let n: usize = found.len();
    if actual < 0 || actual as u64 != n as u64 {
        return Err(refusal("conversation changed during authorization; retry"));
    }
    let mut i: usize = 0;
    while i < n
        invariant
            i <= n,
            n == found@.len(),
            forall|k: int| 0 <= k < i ==> #[trigger] found@[k] == 1,
        decreases n - i,
    {
        if found[i] != 1 {
            assert(found@[i as int] != 1);
            return Err(refusal("conversation changed during authorization; retry"));
        }
        i += 1;
    }
    Ok(())
}

/// Content that is or may be published cannot be unshared.
pub fn check_unshare(blocked: i64) -> (r: Result<(), DbError>)
    ensures
        r is Ok <==> blocked == 0,
        r matches Err(e) ==> refuses(e, "cannot unshare pending, published, or unknown content"@),
{
    if blocked != 0 {
        return Err(refusal("cannot unshare pending, published, or unknown content"));
    }
    Ok(())
}

/// A suppressed interaction is not captured again.
pub fn check_capture(tombstoned: bool) -> (r: Result<(), DbError>)
    ensures
        r is Ok <==> !tombstoned,
        r matches Err(e) ==> refuses(e, "interaction is tombstoned"@),
{
    if tombstoned {
        return Err(refusal("interaction is tombstoned"));
    }
    Ok(())
}

/// Only a locally authorized interaction is redacted on a remote.
pub fn check_remote_redaction(authorized: bool) -> (r: Result<(), DbError>)
    ensures
        r is Ok <==> authorized,
        r matches Err(e) ==> refuses(
            e,
            "remote redaction requires an existing locally authorized interaction"@,
        ),
{
    if !authorized {
        return Err(refusal("remote redaction requires an existing locally authorized interaction"));
    }
    Ok(())
}

/// The contents of captures.
pub open spec fn capture_models(s: Seq<Capture>) -> Seq<CaptureModel> {
    s.map_values(|x: Capture| x@)
}

/// Each capture may be the preparation of the one in its place.
pub open spec fn all_may_prepare(a: Seq<CaptureModel>, b: Seq<CaptureModel>) -> bool {
    &&& a.len() == b.len()
    &&& forall|i: int| 0 <= i < a.len() ==> capture::may_prepare(#[trigger] a[i], b[i])
}

/// The error says that one of the captures may not be kept, and why.
pub open spec fn unclean_capture(e: DbError, captures: Seq<CaptureModel>) -> bool {
    exists|k: int, p: PrivacyError|
        0 <= k < captures.len() && #[trigger] capture::may_refuse(captures[k], p) && refuses(
            e,
            p.text(),
        )
}

/// Prepares captures, all or none.
pub fn prepare_all(captures: Vec<Capture>) -> (r: Result<Vec<Capture>, DbError>)
    ensures
        match r {
            Ok(done) => all_may_prepare(capture_models(captures@), capture_models(done@)),
            Err(e) => unclean_capture(e, capture_models(captures@)),
        },
{
    let ghost all = capture_models(captures@);
    let ghost given = captures@;
    let n: usize = captures.len();
    let mut rest = captures;
    let mut done: Vec<Capture> = Vec::new();
    let mut i: usize = 0;
    while i < n
        invariant
            i <= n,
            n == given.len(),
            given == captures@,
            all == capture_models(given),
            rest@ == given.skip(i as int),
            done@.len() == i,
            forall|k: int|
                0 <= k < i ==> capture::may_prepare(#[trigger] all[k], capture_models(done@)[k]),
        decreases n - i,
    {
        let ghost held = capture_models(done@);
        let next = rest.remove(0);
        assert(next == given[i as int]);
        assert(all[i as int] == next@);
        match prepare(next) {
            Err(e) => {
                assert(capture::may_refuse(all[i as int], e));
                return Err(refusal(e.message().as_str()));
            },
            Ok(c) => {
                done.push(c);
                assert(capture_models(done@) =~= held.push(c@));
            },
        }
        i += 1;
        assert(rest@ =~= given.skip(i as int));
    }
    Ok(done)
}

/// The identity that a conversation of a remote has in this store, so that an
/// equal session identity cannot acquire a local share policy.
pub open spec fn remote_conversation(remote: Seq<char>, id: Seq<char>) -> Seq<char> {
    "remote:"@ + remote + ":"@ + id
}

/// The capture under the conversation identity of a remote.
pub open spec fn namespaced(c: CaptureModel, remote: Seq<char>) -> CaptureModel {
    let id = remote_conversation(remote, c.interaction.conversation_id);
    CaptureModel {
        conversation: ConversationModel { id, ..c.conversation },
        interaction: InteractionModel { conversation_id: id, ..c.interaction },
        ..c
    }
}

/// Puts a prepared capture under the conversation identity of a remote.
pub fn namespace_capture(capture: Capture, remote: &str) -> (r: Capture)
    ensures
        r@ == namespaced(capture@, remote@),
{
    let mut c = capture;
    let mut id = glue3("remote:", remote, ":");
    id.append(c.interaction.conversation_id.as_str());
    c.conversation = Conversation { id: id.clone(), ..c.conversation };
    c.interaction = Interaction { conversation_id: id, ..c.interaction };
    c
}

/// Remotes with different fingerprints never share a conversation identity.
pub proof fn law_remote_conversations_are_apart(
    a: Seq<char>,
    b: Seq<char>,
    x: Seq<char>,
    y: Seq<char>,
)
    requires
        digest::is_lower_hex(a, 64),
        digest::is_lower_hex(b, 64),
        remote_conversation(a, x) == remote_conversation(b, y),
    ensures
        a == b,
        x == y,
{
    reveal_strlit("remote:");
    reveal_strlit(":");
    let s = remote_conversation(a, x);
    let t = remote_conversation(b, y);
    assert(a =~= s.subrange(7, 71));
    assert(b =~= t.subrange(7, 71));
    assert(x =~= s.skip(72));
    assert(y =~= t.skip(72));
}

/// Every capture of a passive batch carries the request it replaces.
pub open spec fn all_from_request(s: Seq<CaptureModel>, request: Seq<char>) -> bool {
    forall|i: int|
        0 <= i < s.len() ==> (#[trigger] s[i]).interaction.source_request_id == Some(request)
}

/// Checks and prepares the captures that replace those of one request. Nothing
/// is deleted unless every one of them can be kept.
pub fn prepare_replacement(request: &str, captures: Vec<Capture>) -> (r: Result<
    Vec<Capture>,
    DbError,
>)
    ensures
        match r {
            Ok(done) => all_from_request(capture_models(captures@), request@) && all_may_prepare(
                capture_models(captures@),
                capture_models(done@),
            ),
            Err(e) => if !all_from_request(capture_models(captures@), request@) {
                refuses(e, "passive capture source request id mismatch"@)
            } else {
                unclean_capture(e, capture_models(captures@))
            },
        },
{
    let ghost all = capture_models(captures@);
    let n: usize = captures.len();
    let mut i: usize = 0;
    while i < n
        invariant
            i <= n,
            n == captures@.len(),
            all == capture_models(captures@),
            forall|k: int|
                0 <= k < i ==> (#[trigger] all[k]).interaction.source_request_id == Some(request@),
        decreases n - i,
    {
        assert(all[i as int] == captures@[i as int]@);
        let same = match &captures[i].interaction.source_request_id {
            Some(id) => text_equal(id.as_str(), request),
            None => false,
        };
        if !same {
            assert(all[i as int].interaction.source_request_id != Some(request@));
            return Err(refusal("passive capture source request id mismatch"));
        }
        i += 1;
    }
    prepare_all(captures)
}

} // verus!
