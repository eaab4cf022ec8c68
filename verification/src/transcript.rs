//! Session transcripts, one JSON entry to a line: reading a window of lines.
//!
//! The entry format is internal to the harness that writes it and may change
//! between releases. Reading is therefore pinned to one major version and fails
//! loudly, giving no captures, whenever an entry's version is missing,
//! unparsable or of another major version; whenever a `user` or `assistant`
//! entry lacks its identity fields or its message; and whenever a message holds
//! a kind of content block that is not understood, because dropping it silently
//! would misrepresent what the model saw or said. Entry types that carry no
//! conversation content are skipped: an unknown entry type is tolerated only
//! when it has no message.

use crate::digest;
use crate::digest::decimal_text;
use crate::import;
use crate::json;
use crate::json::{Json, JsonModel, print_json};
use crate::models;
use crate::models::{Timestamp, copy_opt_text};
use crate::text;
use crate::text::{glue, glue3, join_texts, parse_number, split_text, text_equal, trim};
use vstd::prelude::*;
use vstd::string::*;
use vstd::utf8::*;

verus! {

/// The transcript major version that is understood.
pub const SUPPORTED_MAJOR_VERSION: u64 = 2;

/// A longer line is treated as corruption rather than buffered.
pub const MAX_LINE_BYTES: usize = 33_554_432;

/// What is wrong with a transcript entry.
#[derive(Debug, PartialEq, Eq)]
pub enum EntryFault {
    LineTooLong,
    /// The line is no JSON object of this kind; the words say why.
    NotAnEntry(String),
    NoType,
    /// An entry of this unknown type carries a message.
    UnknownWithMessage(String),
    NoUuid,
    NoSession,
    NoTimestamp,
    /// The text names no moment; the words say why.
    InvalidTimestamp(String, String),
    NoVersion,
    UnparsableVersion(String),
    NoMessage,
    NoRole,
    /// The role of the message is not the type of the entry, which follows.
    RoleMismatch(String, String),
    NoContent,
    UserBlockWithoutType,
    ResultWithoutToolUse,
    UnknownUserBlock(String),
    UserContentShape,
    AssistantBlockWithoutType,
    ToolUseWithoutId,
    ToolUseWithoutName,
    UnknownAssistantBlock(String),
    AssistantContentShape,
}

/// The contents of [`EntryFault`].
pub enum EntryFaultModel {
    LineTooLong,
    NotAnEntry(Seq<char>),
    NoType,
    UnknownWithMessage(Seq<char>),
    NoUuid,
    NoSession,
    NoTimestamp,
    InvalidTimestamp(Seq<char>, Seq<char>),
    NoVersion,
    UnparsableVersion(Seq<char>),
    NoMessage,
    NoRole,
    RoleMismatch(Seq<char>, Seq<char>),
    NoContent,
    UserBlockWithoutType,
    ResultWithoutToolUse,
    UnknownUserBlock(Seq<char>),
    UserContentShape,
    AssistantBlockWithoutType,
    ToolUseWithoutId,
    ToolUseWithoutName,
    UnknownAssistantBlock(Seq<char>),
    AssistantContentShape,
}

impl View for EntryFault {
    type V = EntryFaultModel;

    open spec fn view(&self) -> EntryFaultModel {
        match self {
            EntryFault::LineTooLong => EntryFaultModel::LineTooLong,
            EntryFault::NotAnEntry(s) => EntryFaultModel::NotAnEntry(s@),
            EntryFault::NoType => EntryFaultModel::NoType,
            EntryFault::UnknownWithMessage(s) => EntryFaultModel::UnknownWithMessage(s@),
            EntryFault::NoUuid => EntryFaultModel::NoUuid,
            EntryFault::NoSession => EntryFaultModel::NoSession,
            EntryFault::NoTimestamp => EntryFaultModel::NoTimestamp,
            EntryFault::InvalidTimestamp(s, w) => EntryFaultModel::InvalidTimestamp(s@, w@),
            EntryFault::NoVersion => EntryFaultModel::NoVersion,
            EntryFault::UnparsableVersion(s) => EntryFaultModel::UnparsableVersion(s@),
            EntryFault::NoMessage => EntryFaultModel::NoMessage,
            EntryFault::NoRole => EntryFaultModel::NoRole,
            EntryFault::RoleMismatch(s, k) => EntryFaultModel::RoleMismatch(s@, k@),
            EntryFault::NoContent => EntryFaultModel::NoContent,
            EntryFault::UserBlockWithoutType => EntryFaultModel::UserBlockWithoutType,
            EntryFault::ResultWithoutToolUse => EntryFaultModel::ResultWithoutToolUse,
            EntryFault::UnknownUserBlock(s) => EntryFaultModel::UnknownUserBlock(s@),
            EntryFault::UserContentShape => EntryFaultModel::UserContentShape,
            EntryFault::AssistantBlockWithoutType => EntryFaultModel::AssistantBlockWithoutType,
            EntryFault::ToolUseWithoutId => EntryFaultModel::ToolUseWithoutId,
            EntryFault::ToolUseWithoutName => EntryFaultModel::ToolUseWithoutName,
            EntryFault::UnknownAssistantBlock(s) => EntryFaultModel::UnknownAssistantBlock(s@),
            EntryFault::AssistantContentShape => EntryFaultModel::AssistantContentShape,
        }
    }
}

/// A text in double quotes, with what does not show in it escaped.
pub uninterp spec fn quoted_text(text: Seq<char>) -> Seq<char>;

/// Quotes a text.
///
/// Calls `format!` with the `Debug` form of `str`, which depends on the text alone
/// and is named [`quoted_text`].
#[verifier::external_body]
pub(crate) fn quote_text(text: &str) -> (r: String)
    ensures
        r@ == quoted_text(text@),
{
    format!("{:?}", text)
}

impl EntryFaultModel {
    /// The message for people.
    pub open spec fn text(self) -> Seq<char> {
        match self {
            EntryFaultModel::LineTooLong => "line exceeds the supported size"@,
            EntryFaultModel::NotAnEntry(words) => "not a JSON transcript entry: "@ + words,
            EntryFaultModel::NoType => "entry has no type"@,
            EntryFaultModel::UnknownWithMessage(kind) => "unknown entry type "@ + quoted_text(kind)
                + " carries a message"@,
            EntryFaultModel::NoUuid => "message entry has no uuid"@,
            EntryFaultModel::NoSession => "message entry has no sessionId"@,
            EntryFaultModel::NoTimestamp => "message entry has no timestamp"@,
            EntryFaultModel::InvalidTimestamp(value, words) => "invalid timestamp "@ + quoted_text(
                value,
            ) + ": "@ + words,
            EntryFaultModel::NoVersion => "message entry has no version"@,
            EntryFaultModel::UnparsableVersion(version) => "unparsable version "@ + quoted_text(
                version,
            ),
            EntryFaultModel::NoMessage => "message entry has no message"@,
            EntryFaultModel::NoRole => "message has no role"@,
            EntryFaultModel::RoleMismatch(role, kind) => "message role "@ + quoted_text(role)
                + " does not match entry type "@ + quoted_text(kind),
            EntryFaultModel::NoContent => "message has no content"@,
            EntryFaultModel::UserBlockWithoutType => "user content block has no type"@,
            EntryFaultModel::ResultWithoutToolUse => "tool_result has no tool_use_id"@,
            EntryFaultModel::UnknownUserBlock(kind) => "unknown user content block type "@
                + quoted_text(kind),
            EntryFaultModel::UserContentShape => "user content is neither text nor blocks"@,
            EntryFaultModel::AssistantBlockWithoutType => "assistant content block has no type"@,
            EntryFaultModel::ToolUseWithoutId => "tool_use has no id"@,
            EntryFaultModel::ToolUseWithoutName => "tool_use has no name"@,
            EntryFaultModel::UnknownAssistantBlock(kind) => "unknown assistant content block type "@
                + quoted_text(kind),
            EntryFaultModel::AssistantContentShape =>
            "assistant content is neither text nor blocks"@,
        }
    }
}

impl EntryFault {
    /// The message for people.
    pub fn message(&self) -> (r: String)
        ensures
            r@ == self@.text(),
    {
        match self {
            EntryFault::LineTooLong => "line exceeds the supported size".to_owned(),
            EntryFault::NotAnEntry(words) => glue("not a JSON transcript entry: ", words.as_str()),
            EntryFault::NoType => "entry has no type".to_owned(),
            EntryFault::UnknownWithMessage(kind) => glue3(
                "unknown entry type ",
                quote_text(kind.as_str()).as_str(),
                " carries a message",
            ),
            EntryFault::NoUuid => "message entry has no uuid".to_owned(),
            EntryFault::NoSession => "message entry has no sessionId".to_owned(),
            EntryFault::NoTimestamp => "message entry has no timestamp".to_owned(),
            EntryFault::InvalidTimestamp(value, words) => {
                let start = glue("invalid timestamp ", quote_text(value.as_str()).as_str());
                glue3(start.as_str(), ": ", words.as_str())
            },
            EntryFault::NoVersion => "message entry has no version".to_owned(),
            EntryFault::UnparsableVersion(version) => glue(
                "unparsable version ",
                quote_text(version.as_str()).as_str(),
            ),
            EntryFault::NoMessage => "message entry has no message".to_owned(),
            EntryFault::NoRole => "message has no role".to_owned(),
            EntryFault::RoleMismatch(role, kind) => {
                let start = glue("message role ", quote_text(role.as_str()).as_str());
                let end = quote_text(kind.as_str());
                glue3(start.as_str(), " does not match entry type ", end.as_str())
            },
            EntryFault::NoContent => "message has no content".to_owned(),
            EntryFault::UserBlockWithoutType => "user content block has no type".to_owned(),
            EntryFault::ResultWithoutToolUse => "tool_result has no tool_use_id".to_owned(),
            EntryFault::UnknownUserBlock(kind) => glue(
                "unknown user content block type ",
                quote_text(kind.as_str()).as_str(),
            ),
            EntryFault::UserContentShape => "user content is neither text nor blocks".to_owned(),
            EntryFault::AssistantBlockWithoutType => "assistant content block has no type".to_owned(),
            EntryFault::ToolUseWithoutId => "tool_use has no id".to_owned(),
            EntryFault::ToolUseWithoutName => "tool_use has no name".to_owned(),
            EntryFault::UnknownAssistantBlock(kind) => glue(
                "unknown assistant content block type ",
                quote_text(kind.as_str()).as_str(),
            ),
            EntryFault::AssistantContentShape =>
            "assistant content is neither text nor blocks".to_owned(),
        }
    }
}

/// Why a transcript is refused, and the byte offset of the entry at fault.
#[derive(Debug, PartialEq, Eq)]
pub enum TranscriptError {
    Malformed { offset: u64, reason: EntryFault },
    UnsupportedVersion { offset: u64, version: String, supported: u64 },
    SessionMismatch { offset: u64, expected: String, found: String },
}

/// The contents of [`TranscriptError`].
pub enum TranscriptFault {
    Malformed { offset: u64, reason: EntryFaultModel },
    UnsupportedVersion { offset: u64, version: Seq<char>, supported: u64 },
    SessionMismatch { offset: u64, expected: Seq<char>, found: Seq<char> },
}

impl View for TranscriptError {
    type V = TranscriptFault;

    open spec fn view(&self) -> TranscriptFault {
        match self {
            TranscriptError::Malformed { offset, reason } => TranscriptFault::Malformed {
                offset: *offset,
                reason: reason@,
            },
            TranscriptError::UnsupportedVersion { offset, version, supported } =>
                TranscriptFault::UnsupportedVersion {
                offset: *offset,
                version: version@,
                supported: *supported,
            },
            TranscriptError::SessionMismatch { offset, expected, found } =>
                TranscriptFault::SessionMismatch {
                offset: *offset,
                expected: expected@,
                found: found@,
            },
        }
    }
}

impl TranscriptFault {
    /// The message for people, on a transcript of the harness with this label.
    pub open spec fn text(self, label: Seq<char>) -> Seq<char> {
        match self {
            TranscriptFault::Malformed { offset, reason } => "transcript entry at byte "@
                + digest::decimal(offset as nat) + " is malformed: "@ + reason.text(),
            TranscriptFault::UnsupportedVersion { offset, version, supported } =>
            "transcript entry at byte "@ + digest::decimal(offset as nat) + " has "@ + label
                + " version "@ + version + "; this cvc supports transcript major version "@
                + digest::decimal(supported as nat) + " only"@,
            TranscriptFault::SessionMismatch { offset, expected, found } =>
            "transcript entry at byte "@ + digest::decimal(offset as nat) + " belongs to session "@
                + found + ", expected "@ + expected,
        }
    }
}

fn entry_at(offset: u64) -> (r: String)
    ensures
        r@ == "transcript entry at byte "@ + digest::decimal(offset as nat),
{
    glue("transcript entry at byte ", decimal_text(offset).as_str())
}

impl TranscriptError {
    /// The message for people, on a transcript of the harness with this label.
    pub fn message(&self, label: &str) -> (r: String)
        ensures
            r@ == self@.text(label@),
    {
        match self {
            TranscriptError::Malformed { offset, reason } => glue3(
                entry_at(*offset).as_str(),
                " is malformed: ",
                reason.message().as_str(),
            ),
            TranscriptError::UnsupportedVersion { offset, version, supported } => {
                let entry = glue3(entry_at(*offset).as_str(), " has ", label);
                let of = glue3(entry.as_str(), " version ", version.as_str());
                let known = decimal_text(*supported);
                let start = glue3(
                    of.as_str(),
                    "; this cvc supports transcript major version ",
                    known.as_str(),
                );
                glue(start.as_str(), " only")
            },
            TranscriptError::SessionMismatch { offset, expected, found } => {
                let start = glue3(entry_at(*offset).as_str(), " belongs to session ", found.as_str());
                glue3(start.as_str(), ", expected ", expected.as_str())
            },
        }
    }
}

/// A malformed entry.
pub open spec fn fault_at(offset: u64, reason: EntryFaultModel) -> TranscriptFault {
    TranscriptFault::Malformed { offset, reason }
}

fn malformed(offset: u64, reason: EntryFault) -> (r: TranscriptError)
    ensures
        r@ == fault_at(offset, reason@),
{
    TranscriptError::Malformed { offset, reason }
}

/// What a chain-only entry is.
#[derive(Debug, Clone, Copy, PartialEq, Eq, Structural)]
pub enum OtherKind {
    StopHookSummary,
    CompactBoundary,
    Attachment,
    Unknown,
}

/// What a tool gave back.
#[derive(Debug)]
pub struct ToolResultBlock {
    pub tool_use_id: String,
    pub content: String,
    pub is_error: bool,
}

/// The contents of [`ToolResultBlock`].
#[verifier::ext_equal]
pub struct ResultModel {
    pub tool_use_id: Seq<char>,
    pub content: Seq<char>,
    pub is_error: bool,
}

impl View for ToolResultBlock {
    type V = ResultModel;

    open spec fn view(&self) -> ResultModel {
        ResultModel {
            tool_use_id: self.tool_use_id@,
            content: self.content@,
            is_error: self.is_error,
        }
    }
}

/// The contents of results.
pub open spec fn result_models(s: Seq<ToolResultBlock>) -> Seq<ResultModel> {
    s.map_values(|x: ToolResultBlock| x@)
}

/// What a user entry says.
#[derive(Debug)]
pub struct UserMessage {
    pub texts: Vec<String>,
    pub tool_results: Vec<ToolResultBlock>,
    pub meta: bool,
    pub compact_summary: bool,
}

/// The contents of [`UserMessage`].
#[verifier::ext_equal]
pub struct UserModel {
    pub texts: Seq<Seq<char>>,
    pub tool_results: Seq<ResultModel>,
    pub meta: bool,
    pub compact_summary: bool,
}

impl View for UserMessage {
    type V = UserModel;

    open spec fn view(&self) -> UserModel {
        UserModel {
            texts: self.texts.deep_view(),
            tool_results: result_models(self.tool_results@),
            meta: self.meta,
            compact_summary: self.compact_summary,
        }
    }
}

impl Default for UserMessage {
    fn default() -> (r: Self)
        ensures
            r@ == no_user_message(false, false),
    {
        let r = UserMessage {
            texts: Vec::new(),
            tool_results: Vec::new(),
            meta: false,
            compact_summary: false,
        };
        assert(r@ =~= no_user_message(false, false));
        r
    }
}

/// A user entry that says nothing yet.
pub open spec fn no_user_message(meta: bool, compact_summary: bool) -> UserModel {
    UserModel { texts: Seq::empty(), tool_results: Seq::empty(), meta, compact_summary }
}

/// A part of an assistant entry.
#[derive(Debug)]
pub enum AssistantBlock {
    Text(String),
    Thinking(String),
    ToolUse { id: String, name: String, input: Json },
}

/// The contents of [`AssistantBlock`].
pub enum BlockModel {
    Text(Seq<char>),
    Thinking(Seq<char>),
    ToolUse { id: Seq<char>, name: Seq<char>, input: JsonModel },
}

impl View for AssistantBlock {
    type V = BlockModel;

    open spec fn view(&self) -> BlockModel {
        match self {
            AssistantBlock::Text(s) => BlockModel::Text(s@),
            AssistantBlock::Thinking(s) => BlockModel::Thinking(s@),
            AssistantBlock::ToolUse { id, name, input } => BlockModel::ToolUse {
                id: id@,
                name: name@,
                input: input@,
            },
        }
    }
}

/// The contents of blocks.
pub open spec fn block_models(s: Seq<AssistantBlock>) -> Seq<BlockModel> {
    s.map_values(|x: AssistantBlock| x@)
}

/// What an assistant entry says.
#[derive(Debug)]
pub struct AssistantMessage {
    pub request_id: Option<String>,
    pub model: Option<String>,
    pub blocks: Vec<AssistantBlock>,
}

/// The contents of [`AssistantMessage`].
#[verifier::ext_equal]
pub struct AssistantModel {
    pub request_id: Option<Seq<char>>,
    pub model: Option<Seq<char>>,
    pub blocks: Seq<BlockModel>,
}

impl View for AssistantMessage {
    type V = AssistantModel;

    open spec fn view(&self) -> AssistantModel {
        AssistantModel {
            request_id: models::opt_text(self.request_id),
            model: models::opt_text(self.model),
            blocks: block_models(self.blocks@),
        }
    }
}

/// What an entry holds.
#[derive(Debug)]
pub enum Payload {
    User(UserMessage),
    Assistant(AssistantMessage),
    /// Chain-only entries: system notices, attachments, API error notices.
    Other(OtherKind),
}

/// The contents of [`Payload`].
pub enum PayloadModel {
    User(UserModel),
    Assistant(AssistantModel),
    Other(OtherKind),
}

impl View for Payload {
    type V = PayloadModel;

    open spec fn view(&self) -> PayloadModel {
        match self {
            Payload::User(m) => PayloadModel::User(m@),
            Payload::Assistant(m) => PayloadModel::Assistant(m@),
            Payload::Other(k) => PayloadModel::Other(*k),
        }
    }
}

/// An entry of the conversation chain.
#[derive(Debug)]
pub struct Entry {
    /// Byte offset of this line's first byte within the transcript file.
    pub offset: u64,
    pub uuid: String,
    /// The chain parent; for compaction boundaries this is the logical parent
    /// so chains stay continuous across compaction.
    pub parent_uuid: Option<String>,
    pub timestamp: Option<Timestamp>,
    pub cwd: Option<String>,
    pub payload: Payload,
}

/// The contents of [`Entry`].
pub struct ChainModel {
    pub offset: u64,
    pub uuid: Seq<char>,
    pub parent_uuid: Option<Seq<char>>,
    pub timestamp: Option<Timestamp>,
    pub cwd: Option<Seq<char>>,
    pub payload: PayloadModel,
}

impl View for Entry {
    type V = ChainModel;

    open spec fn view(&self) -> ChainModel {
        ChainModel {
            offset: self.offset,
            uuid: self.uuid@,
            parent_uuid: models::opt_text(self.parent_uuid),
            timestamp: self.timestamp,
            cwd: models::opt_text(self.cwd),
            payload: self.payload@,
        }
    }
}

/// A parsed transcript line.
#[derive(Debug)]
pub enum ParsedLine {
    /// A chain entry (message or chain-only bookkeeping) with a uuid.
    Entry(Entry),
    /// A session title update.
    Title(String),
    /// Bookkeeping with no conversation content, or a sidechain entry.
    Skipped,
}

/// The contents of [`ParsedLine`].
pub enum LineModel {
    Entry(ChainModel),
    Title(Seq<char>),
    Skipped,
}

impl View for ParsedLine {
    type V = LineModel;

    open spec fn view(&self) -> LineModel {
        match self {
            ParsedLine::Entry(e) => LineModel::Entry(e@),
            ParsedLine::Title(s) => LineModel::Title(s@),
            ParsedLine::Skipped => LineModel::Skipped,
        }
    }
}

/// The contents of lines.
pub open spec fn line_models(s: Seq<ParsedLine>) -> Seq<LineModel> {
    s.map_values(|x: ParsedLine| x@)
}

/// The fields of a transcript line that matter, as the line's JSON gives them:
/// each absent where the line has none or null.
#[derive(Debug, Default)]
pub struct RawEntry {
    pub kind: Option<String>,
    pub uuid: Option<String>,
    pub parent_uuid: Option<String>,
    pub logical_parent_uuid: Option<String>,
    pub session_id: Option<String>,
    pub timestamp: Option<String>,
    pub version: Option<String>,
    pub request_id: Option<String>,
    pub subtype: Option<String>,
    pub custom_title: Option<String>,
    pub summary: Option<String>,
    pub cwd: Option<String>,
    pub is_sidechain: Option<bool>,
    pub is_meta: Option<bool>,
    pub is_compact_summary: Option<bool>,
    pub is_api_error_message: Option<bool>,
    pub message: Option<Json>,
}

/// The contents of [`RawEntry`].
#[verifier::ext_equal]
pub struct RawModel {
    pub kind: Option<Seq<char>>,
    pub uuid: Option<Seq<char>>,
    pub parent_uuid: Option<Seq<char>>,
    pub logical_parent_uuid: Option<Seq<char>>,
    pub session_id: Option<Seq<char>>,
    pub timestamp: Option<Seq<char>>,
    pub version: Option<Seq<char>>,
    pub request_id: Option<Seq<char>>,
    pub subtype: Option<Seq<char>>,
    pub custom_title: Option<Seq<char>>,
    pub summary: Option<Seq<char>>,
    pub cwd: Option<Seq<char>>,
    pub is_sidechain: Option<bool>,
    pub is_meta: Option<bool>,
    pub is_compact_summary: Option<bool>,
    pub is_api_error_message: Option<bool>,
    pub message: Option<JsonModel>,
}

impl View for RawEntry {
    type V = RawModel;

    open spec fn view(&self) -> RawModel {
        RawModel {
            kind: models::opt_text(self.kind),
            uuid: models::opt_text(self.uuid),
            parent_uuid: models::opt_text(self.parent_uuid),
            logical_parent_uuid: models::opt_text(self.logical_parent_uuid),
            session_id: models::opt_text(self.session_id),
            timestamp: models::opt_text(self.timestamp),
            version: models::opt_text(self.version),
            request_id: models::opt_text(self.request_id),
            subtype: models::opt_text(self.subtype),
            custom_title: models::opt_text(self.custom_title),
            summary: models::opt_text(self.summary),
            cwd: models::opt_text(self.cwd),
            is_sidechain: self.is_sidechain,
            is_meta: self.is_meta,
            is_compact_summary: self.is_compact_summary,
            is_api_error_message: self.is_api_error_message,
            message: match self.message {
                Some(j) => Some(j@),
                None => None,
            },
        }
    }
}

/// Checks the version of a message entry.
pub open spec fn version_fault(version: Option<Seq<char>>, offset: u64) -> Option<TranscriptFault> {
    match version {
        None => Some(fault_at(offset, EntryFaultModel::NoVersion)),
        Some(v) => match text::number_of(text::pieces(v, '.')[0]) {
            None => Some(fault_at(offset, EntryFaultModel::UnparsableVersion(v))),
            Some(major) => if major != SUPPORTED_MAJOR_VERSION {
                Some(
                    TranscriptFault::UnsupportedVersion {
                        offset,
                        version: v,
                        supported: SUPPORTED_MAJOR_VERSION,
                    },
                )
            } else {
                None
            },
        },
    }
}

/// Checks the version of a message entry.
pub fn check_version(version: Option<&str>, offset: u64) -> (r: Result<(), TranscriptError>)
    ensures
        match version_fault(
            match version {
                Some(v) => Some(v@),
                None => None,
            },
            offset,
        ) {
            None => r is Ok,
            Some(f) => r matches Err(e) && e@ == f,
        },
{
    let version = match version {
        Some(v) => v,
        None => {
            return Err(malformed(offset, EntryFault::NoVersion));
        },
    };
    let parts = split_text(version, '.');
    proof {
        assert(text::pieces(version@, '.').len() >= 1);
        assert(parts.deep_view()[0] == parts@[0]@);
    }
    match parse_number(parts[0].as_str()) {
        None => Err(malformed(offset, EntryFault::UnparsableVersion(version.to_owned()))),
        Some(major) => if major != SUPPORTED_MAJOR_VERSION {
            Err(
                TranscriptError::UnsupportedVersion {
                    offset,
                    version: version.to_owned(),
                    supported: SUPPORTED_MAJOR_VERSION,
                },
            )
        } else {
            Ok(())
        },
    }
}

/// What is shown of a block of tool output.
pub open spec fn shown_block(block: JsonModel) -> Seq<char> {
    match json::text_in(json::member(block, "type"@)) {
        Some(kind) => if kind == "text"@ {
            match json::text_in(json::member(block, "text"@)) {
                Some(t) => t,
                None => Seq::empty(),
            }
        } else {
            "["@ + kind + "]"@
        },
        None => "[block]"@,
    }
}

/// What is shown of tool output. It is opaque payload rather than conversation
/// structure, so that unknown blocks leave a placeholder.
pub open spec fn shown_result(content: Option<JsonModel>) -> Seq<char> {
    match content {
        None => Seq::empty(),
        Some(JsonModel::Null) => Seq::empty(),
        Some(JsonModel::Text(t)) => t,
        Some(JsonModel::List(blocks)) => text::joined(
            blocks.map_values(|b: JsonModel| shown_block(b)),
            "\n"@,
        ),
        Some(other) => json::printed_json(other),
    }
}

fn empty_text() -> (r: String)
    ensures
        r@ == Seq::<char>::empty(),
{
    let r = String::new();
    assert(r@ =~= Seq::<char>::empty());
    r
}

fn text_or_empty(block: &Json, name: &str) -> (r: String)
    ensures
        r@ == (match json::text_in(json::member(block@, name@)) {
            Some(t) => t,
            None => Seq::<char>::empty(),
        }),
{
    match block.text_at(name) {
        Some(t) => t.clone(),
        None => empty_text(),
    }
}

fn render_block(block: &Json) -> (r: String)
    ensures
        r@ == shown_block(block@),
{
    match block.text_at("type") {
        Some(kind) => if text_equal(kind.as_str(), "text") {
            text_or_empty(block, "text")
        } else {
            glue3("[", kind.as_str(), "]")
        },
        None => "[block]".to_owned(),
    }
}

/// Shows tool output.
pub fn render_tool_result_content(content: Option<&Json>) -> (r: String)
    ensures
        r@ == shown_result(
            match content {
                Some(j) => Some(j@),
                None => None,
            },
        ),
{
    match content {
        None => empty_text(),
        Some(doc) => match doc {
            Json::Null => empty_text(),
            Json::Text(t) => t.clone(),
            Json::List(blocks) => {
                let ghost bs = json::list_models(blocks@);
                let ghost shown = bs.map_values(|b: JsonModel| shown_block(b));
                proof {
                    json::lemma_list_model(*blocks);
                }
                let mut parts: Vec<String> = Vec::new();
                let mut k: usize = 0;
                while k < blocks.len()
                    invariant
                        k <= blocks.len(),
                        bs == json::list_models(blocks@),
                        shown == bs.map_values(|b: JsonModel| shown_block(b)),
                        parts.deep_view() == shown.take(k as int),
                    decreases blocks.len() - k,
                {
                    assert(bs[k as int] == blocks@[k as int]@);
                    let ghost held = parts.deep_view();
                    parts.push(render_block(&blocks[k]));
                    assert(parts.deep_view() =~= held.push(shown[k as int]));
                    k += 1;
                    assert(parts.deep_view() =~= shown.take(k as int));
                }
                assert(shown.take(shown.len() as int) =~= shown);
                join_texts(&parts, "\n")
            },
            other => print_json(other),
        },
    }
}

/// A user entry with one more content block.
pub open spec fn with_user_block(m: UserModel, block: JsonModel, offset: u64) -> Result<
    UserModel,
    TranscriptFault,
> {
    match json::text_in(json::member(block, "type"@)) {
        None => Err(fault_at(offset, EntryFaultModel::UserBlockWithoutType)),
        Some(kind) => if kind == "text"@ {
            Ok(
                UserModel {
                    texts: m.texts.push(
                        match json::text_in(json::member(block, "text"@)) {
                            Some(t) => t,
                            None => Seq::empty(),
                        },
                    ),
                    ..m
                },
            )
        } else if kind == "tool_result"@ {
            match json::text_in(json::member(block, "tool_use_id"@)) {
                None => Err(fault_at(offset, EntryFaultModel::ResultWithoutToolUse)),
                Some(id) => Ok(
                    UserModel {
                        tool_results: m.tool_results.push(
                            ResultModel {
                                tool_use_id: id,
                                content: shown_result(json::member(block, "content"@)),
                                is_error: json::bool_in(json::member(block, "is_error"@)) == Some(
                                    true,
                                ),
                            },
                        ),
                        ..m
                    },
                ),
            }
        } else if kind == "image"@ {
            Ok(UserModel { texts: m.texts.push("[image]"@), ..m })
        } else if kind == "document"@ {
            Ok(UserModel { texts: m.texts.push("[document]"@), ..m })
        } else {
            Err(fault_at(offset, EntryFaultModel::UnknownUserBlock(kind)))
        },
    }
}

/// A user entry with the content blocks from position `k` on.
pub open spec fn with_user_blocks(m: UserModel, blocks: Seq<JsonModel>, k: int, offset: u64) -> Result<
    UserModel,
    TranscriptFault,
>
    decreases blocks.len() - k,
{
    if k < 0 || k >= blocks.len() {
        Ok(m)
    } else {
        match with_user_block(m, blocks[k], offset) {
            Err(f) => Err(f),
            Ok(next) => with_user_blocks(next, blocks, k + 1, offset),
        }
    }
}

/// What the content of a user entry says.
pub open spec fn user_content(content: JsonModel, offset: u64, meta: bool, compact: bool) -> Result<
    UserModel,
    TranscriptFault,
> {
    let m = no_user_message(meta, compact);
    match content {
        JsonModel::Text(t) => Ok(UserModel { texts: seq![t], ..m }),
        JsonModel::List(blocks) => with_user_blocks(m, blocks, 0, offset),
        _ => Err(fault_at(offset, EntryFaultModel::UserContentShape)),
    }
}

fn add_user_block(m: &mut UserMessage, block: &Json, offset: u64) -> (r: Result<(), TranscriptError>)
    ensures
        match with_user_block(old(m)@, block@, offset) {
            Ok(n) => r is Ok && final(m)@ == n,
            Err(f) => r matches Err(e) && e@ == f,
        },
{
    let ghost before = m@;
    let kind = match block.text_at("type") {
        Some(kind) => kind,
        None => {
            return Err(malformed(offset, EntryFault::UserBlockWithoutType));
        },
    };
    let kind = kind.as_str();
    if text_equal(kind, "text") {
        let t = text_or_empty(block, "text");
        let ghost x = t@;
        m.texts.push(t);
        assert(m.texts.deep_view() =~= before.texts.push(x));
        Ok(())
    } else if text_equal(kind, "tool_result") {
        match block.text_at("tool_use_id") {
            None => Err(malformed(offset, EntryFault::ResultWithoutToolUse)),
            Some(id) => {
                let is_error = match block.bool_at("is_error") {
                    Some(b) => b,
                    None => false,
                };
                let x = ToolResultBlock {
                    tool_use_id: id.clone(),
                    content: render_tool_result_content(block.get("content")),
                    is_error,
                };
                let ghost xm = x@;
                m.tool_results.push(x);
                assert(result_models(m.tool_results@) =~= before.tool_results.push(xm));
                Ok(())
            },
        }
    } else if text_equal(kind, "image") {
        m.texts.push("[image]".to_owned());
        assert(m.texts.deep_view() =~= before.texts.push("[image]"@));
        Ok(())
    } else if text_equal(kind, "document") {
        m.texts.push("[document]".to_owned());
        assert(m.texts.deep_view() =~= before.texts.push("[document]"@));
        Ok(())
    } else {
        Err(malformed(offset, EntryFault::UnknownUserBlock(kind.to_owned())))
    }
}

fn parse_user_content(content: &Json, offset: u64, meta: bool, compact_summary: bool) -> (r: Result<
    UserMessage,
    TranscriptError,
>)
    ensures
        match user_content(content@, offset, meta, compact_summary) {
            Ok(n) => r matches Ok(m) && m@ == n,
            Err(f) => r matches Err(e) && e@ == f,
        },
{
    let mut m = UserMessage {
        texts: Vec::new(),
        tool_results: Vec::new(),
        meta,
        compact_summary,
    };
    assert(m@ =~= no_user_message(meta, compact_summary));
    match content {
        Json::Text(t) => {
            m.texts.push(t.clone());
            assert(m.texts.deep_view() =~= seq![t@]);
            Ok(m)
        },
        Json::List(blocks) => {
            let ghost bs = json::list_models(blocks@);
            let ghost start = m@;
            proof {
                json::lemma_list_model(*blocks);
            }
            let mut k: usize = 0;
            while k < blocks.len()
                invariant
                    k <= blocks.len(),
                    bs == json::list_models(blocks@),
                    content@ == JsonModel::List(bs),
                    start == no_user_message(meta, compact_summary),
                    with_user_blocks(start, bs, 0, offset) == with_user_blocks(
                        m@,
                        bs,
                        k as int,
                        offset,
                    ),
                decreases blocks.len() - k,
            {
                assert(bs[k as int] == blocks@[k as int]@);
                match add_user_block(&mut m, &blocks[k], offset) {
                    Ok(_) => {},
                    Err(e) => {
                        return Err(e);
                    },
                }
                k += 1;
            }
            Ok(m)
        },
        _ => Err(malformed(offset, EntryFault::UserContentShape)),
    }
}

/// A block whose results come back within the assistant's own message.
pub open spec fn server_result(kind: Seq<char>) -> bool {
    kind == "web_search_tool_result"@ || kind == "web_fetch_tool_result"@ || kind
        == "code_execution_tool_result"@
}

/// The blocks of an assistant entry with one more content block.
pub open spec fn with_assistant_block(bs: Seq<BlockModel>, block: JsonModel, offset: u64) -> Result<
    Seq<BlockModel>,
    TranscriptFault,
> {
    match json::text_in(json::member(block, "type"@)) {
        None => Err(fault_at(offset, EntryFaultModel::AssistantBlockWithoutType)),
        Some(kind) => if kind == "text"@ {
            Ok(
                bs.push(
                    BlockModel::Text(
                        match json::text_in(json::member(block, "text"@)) {
                            Some(t) => t,
                            None => Seq::empty(),
                        },
                    ),
                ),
            )
        } else if kind == "thinking"@ {
            Ok(
                bs.push(
                    BlockModel::Thinking(
                        match json::text_in(json::member(block, "thinking"@)) {
                            Some(t) => t,
                            None => Seq::empty(),
                        },
                    ),
                ),
            )
        } else if kind == "redacted_thinking"@ {
            Ok(bs)
        } else if kind == "tool_use"@ || kind == "server_tool_use"@ {
            match json::text_in(json::member(block, "id"@)) {
                None => Err(fault_at(offset, EntryFaultModel::ToolUseWithoutId)),
                Some(id) => match json::text_in(json::member(block, "name"@)) {
                    None => Err(fault_at(offset, EntryFaultModel::ToolUseWithoutName)),
                    Some(name) => Ok(
                        bs.push(
                            BlockModel::ToolUse {
                                id,
                                name: if kind == "server_tool_use"@ {
                                    "server:"@ + name
                                } else {
                                    name
                                },
                                input: match json::member(block, "input"@) {
                                    Some(j) => j,
                                    None => JsonModel::Null,
                                },
                            },
                        ),
                    ),
                },
            }
        } else if server_result(kind) {
            Ok(bs.push(BlockModel::Text("["@ + kind + "]"@)))
        } else {
            Err(fault_at(offset, EntryFaultModel::UnknownAssistantBlock(kind)))
        },
    }
}

/// The blocks of an assistant entry with the content blocks from position `k` on.
pub open spec fn with_assistant_blocks(
    bs: Seq<BlockModel>,
    blocks: Seq<JsonModel>,
    k: int,
    offset: u64,
) -> Result<Seq<BlockModel>, TranscriptFault>
    decreases blocks.len() - k,
{
    if k < 0 || k >= blocks.len() {
        Ok(bs)
    } else {
        match with_assistant_block(bs, blocks[k], offset) {
            Err(f) => Err(f),
            Ok(next) => with_assistant_blocks(next, blocks, k + 1, offset),
        }
    }
}

/// The blocks that the content of an assistant entry consists of.
pub open spec fn assistant_content(content: JsonModel, offset: u64) -> Result<
    Seq<BlockModel>,
    TranscriptFault,
> {
    match content {
        JsonModel::Text(t) => Ok(seq![BlockModel::Text(t)]),
        JsonModel::List(blocks) => with_assistant_blocks(Seq::empty(), blocks, 0, offset),
        _ => Err(fault_at(offset, EntryFaultModel::AssistantContentShape)),
    }
}

fn push_block(out: &mut Vec<AssistantBlock>, b: AssistantBlock)
    ensures
        block_models(final(out)@) == block_models(old(out)@).push(b@),
{
    let ghost held = block_models(out@);
    let ghost x = b@;
    out.push(b);
    assert(block_models(out@) =~= held.push(x));
}

fn add_assistant_block(out: &mut Vec<AssistantBlock>, block: &Json, offset: u64) -> (r: Result<
    (),
    TranscriptError,
>)
    ensures
        match with_assistant_block(block_models(old(out)@), block@, offset) {
            Ok(n) => r is Ok && block_models(final(out)@) == n,
            Err(f) => r matches Err(e) && e@ == f,
        },
{
    let kind = match block.text_at("type") {
        Some(kind) => kind,
        None => {
            return Err(malformed(offset, EntryFault::AssistantBlockWithoutType));
        },
    };
    let kind = kind.as_str();
    let server = text_equal(kind, "server_tool_use");
    if text_equal(kind, "text") {
        push_block(out, AssistantBlock::Text(text_or_empty(block, "text")));
        Ok(())
    } else if text_equal(kind, "thinking") {
        push_block(out, AssistantBlock::Thinking(text_or_empty(block, "thinking")));
        Ok(())
    } else if text_equal(kind, "redacted_thinking") {
        Ok(())
    } else if text_equal(kind, "tool_use") || server {
        let id = match block.text_at("id") {
            Some(id) => id.clone(),
            None => {
                return Err(malformed(offset, EntryFault::ToolUseWithoutId));
            },
        };
        let name = match block.text_at("name") {
            Some(name) => if server {
                glue("server:", name.as_str())
            } else {
                name.clone()
            },
            None => {
                return Err(malformed(offset, EntryFault::ToolUseWithoutName));
            },
        };
        let input = match block.get("input") {
            Some(j) => j.clone(),
            None => Json::Null,
        };
        push_block(out, AssistantBlock::ToolUse { id, name, input });
        Ok(())
    } else if text_equal(kind, "web_search_tool_result") || text_equal(
        kind,
        "web_fetch_tool_result",
    ) || text_equal(kind, "code_execution_tool_result") {
        push_block(out, AssistantBlock::Text(glue3("[", kind, "]")));
        Ok(())
    } else {
        Err(malformed(offset, EntryFault::UnknownAssistantBlock(kind.to_owned())))
    }
}

fn parse_assistant_content(content: &Json, offset: u64) -> (r: Result<
    Vec<AssistantBlock>,
    TranscriptError,
>)
    ensures
        match assistant_content(content@, offset) {
            Ok(n) => r matches Ok(v) && block_models(v@) == n,
            Err(f) => r matches Err(e) && e@ == f,
        },
{
    let mut out: Vec<AssistantBlock> = Vec::new();
    assert(block_models(out@) =~= Seq::empty());
    match content {
        Json::Text(t) => {
            push_block(&mut out, AssistantBlock::Text(t.clone()));
            assert(block_models(out@) =~= seq![BlockModel::Text(t@)]);
            Ok(out)
        },
        Json::List(blocks) => {
            let ghost bs = json::list_models(blocks@);
            proof {
                json::lemma_list_model(*blocks);
            }
            let mut k: usize = 0;
            while k < blocks.len()
                invariant
                    k <= blocks.len(),
                    bs == json::list_models(blocks@),
                    content@ == JsonModel::List(bs),
                    with_assistant_blocks(Seq::empty(), bs, 0, offset) == with_assistant_blocks(
                        block_models(out@),
                        bs,
                        k as int,
                        offset,
                    ),
                decreases blocks.len() - k,
            {
                assert(bs[k as int] == blocks@[k as int]@);
                match add_assistant_block(&mut out, &blocks[k], offset) {
                    Ok(_) => {},
                    Err(e) => {
                        return Err(e);
                    },
                }
                k += 1;
            }
            Ok(out)
        },
        _ => Err(malformed(offset, EntryFault::AssistantContentShape)),
    }
}

/// What a chain-only entry of this type and subtype is.
pub open spec fn other_kind(kind: Seq<char>, subtype: Option<Seq<char>>) -> OtherKind {
    if kind == "system"@ && subtype == Some("compact_boundary"@) {
        OtherKind::CompactBoundary
    } else if kind == "system"@ && subtype == Some("stop_hook_summary"@) {
        OtherKind::StopHookSummary
    } else if kind == "attachment"@ {
        OtherKind::Attachment
    } else {
        OtherKind::Unknown
    }
}

/// An entry that is no message: tracked when it can be chained, and tolerated
/// only if it carries no message.
pub open spec fn chain_only(raw: RawModel, kind: Seq<char>, offset: u64) -> Result<
    LineModel,
    TranscriptFault,
> {
    if raw.message is Some && kind != "system"@ && kind != "attachment"@ {
        Err(fault_at(offset, EntryFaultModel::UnknownWithMessage(kind)))
    } else {
        match raw.uuid {
            None => Ok(LineModel::Skipped),
            Some(uuid) => {
                let other = other_kind(kind, raw.subtype);
                let parent_uuid = if other == OtherKind::CompactBoundary
                    && raw.logical_parent_uuid is Some {
                    raw.logical_parent_uuid
                } else {
                    raw.parent_uuid
                };
                match raw.timestamp {
                    None => Ok(
                        LineModel::Entry(
                            ChainModel {
                                offset,
                                uuid,
                                parent_uuid,
                                timestamp: None,
                                cwd: raw.cwd,
                                payload: PayloadModel::Other(other),
                            },
                        ),
                    ),
                    Some(t) => match models::moment_of(t) {
                        Err(words) => Err(
                            fault_at(offset, EntryFaultModel::InvalidTimestamp(t, words)),
                        ),
                        Ok(m) => Ok(
                            LineModel::Entry(
                                ChainModel {
                                    offset,
                                    uuid,
                                    parent_uuid,
                                    timestamp: Some(m),
                                    cwd: raw.cwd,
                                    payload: PayloadModel::Other(other),
                                },
                            ),
                        ),
                    },
                }
            },
        }
    }
}

/// What a message says, by the type of its entry.
pub open spec fn message_payload(
    raw: RawModel,
    kind: Seq<char>,
    message: JsonModel,
    content: JsonModel,
    offset: u64,
) -> Result<PayloadModel, TranscriptFault> {
    if kind == "user"@ {
        match user_content(
            content,
            offset,
            raw.is_meta == Some(true),
            raw.is_compact_summary == Some(true),
        ) {
            Err(f) => Err(f),
            Ok(m) => Ok(PayloadModel::User(m)),
        }
    } else if raw.is_api_error_message == Some(true) {
        Ok(PayloadModel::Other(OtherKind::Unknown))
    } else {
        match assistant_content(content, offset) {
            Err(f) => Err(f),
            Ok(blocks) => Ok(
                PayloadModel::Assistant(
                    AssistantModel {
                        request_id: match raw.request_id {
                            Some(s) => if s.len() > 0 {
                                Some(s)
                            } else {
                                None
                            },
                            None => None,
                        },
                        model: json::text_in(json::member(message, "model"@)),
                        blocks,
                    },
                ),
            ),
        }
    }
}

/// A message entry: every identity field is required, and the version gate
/// applies.
pub open spec fn message_entry(raw: RawModel, kind: Seq<char>, offset: u64) -> Result<
    LineModel,
    TranscriptFault,
> {
    if raw.uuid is None {
        Err(fault_at(offset, EntryFaultModel::NoUuid))
    } else if raw.session_id is None {
        Err(fault_at(offset, EntryFaultModel::NoSession))
    } else if raw.timestamp is None {
        Err(fault_at(offset, EntryFaultModel::NoTimestamp))
    } else if models::moment_of(raw.timestamp->0) is Err {
        Err(
            fault_at(
                offset,
                EntryFaultModel::InvalidTimestamp(
                    raw.timestamp->0,
                    models::moment_of(raw.timestamp->0)->Err_0,
                ),
            ),
        )
    } else if version_fault(raw.version, offset) is Some {
        Err(version_fault(raw.version, offset)->0)
    } else {
        match raw.message {
            None => Err(fault_at(offset, EntryFaultModel::NoMessage)),
            Some(message) => match json::text_in(json::member(message, "role"@)) {
                None => Err(fault_at(offset, EntryFaultModel::NoRole)),
                Some(role) => if role != kind {
                    Err(fault_at(offset, EntryFaultModel::RoleMismatch(role, kind)))
                } else {
                    match json::member(message, "content"@) {
                        None => Err(fault_at(offset, EntryFaultModel::NoContent)),
                        Some(content) => match message_payload(
                            raw,
                            kind,
                            message,
                            content,
                            offset,
                        ) {
                            Err(f) => Err(f),
                            Ok(payload) => Ok(
                                LineModel::Entry(
                                    ChainModel {
                                        offset,
                                        uuid: raw.uuid->0,
                                        parent_uuid: raw.parent_uuid,
                                        timestamp: Some(models::moment_of(raw.timestamp->0)->Ok_0),
                                        cwd: raw.cwd,
                                        payload,
                                    },
                                ),
                            ),
                        },
                    }
                },
            },
        }
    }
}

/// The title that a text holds.
pub open spec fn title_line(text: Option<Seq<char>>, refused: Option<Seq<char>>) -> LineModel {
    match text {
        Some(t) => {
            let title = text::trimmed(t);
            if title.len() > 0 && Some(title) != refused {
                LineModel::Title(title)
            } else {
                LineModel::Skipped
            }
        },
        None => LineModel::Skipped,
    }
}

/// What an entry stands for.
pub open spec fn entry_line(raw: RawModel, offset: u64, session: Seq<char>) -> Result<
    LineModel,
    TranscriptFault,
> {
    match raw.kind {
        None => Err(fault_at(offset, EntryFaultModel::NoType)),
        Some(kind) => if raw.session_id is Some && raw.session_id != Some(session) {
            Err(
                TranscriptFault::SessionMismatch {
                    offset,
                    expected: session,
                    found: raw.session_id->0,
                },
            )
        } else if raw.is_sidechain == Some(true) {
            Ok(LineModel::Skipped)
        } else if kind == "user"@ || kind == "assistant"@ {
            message_entry(raw, kind, offset)
        } else if kind == "custom-title"@ {
            Ok(title_line(raw.custom_title, Some("New session"@)))
        } else if kind == "summary"@ {
            Ok(title_line(raw.summary, None))
        } else {
            chain_only(raw, kind, offset)
        },
    }
}

/// What a line is before its JSON is looked at: blank, too long, or a JSON text
/// that may be an entry.
pub open spec fn parsed_line(
    line: Seq<u8>,
    raw: Result<RawModel, Seq<char>>,
    offset: u64,
    session: Seq<char>,
) -> Result<LineModel, TranscriptFault> {
    let body = without_return(line);
    if blank_bytes(body) {
        Ok(LineModel::Skipped)
    } else if body.len() > MAX_LINE_BYTES {
        Err(fault_at(offset, EntryFaultModel::LineTooLong))
    } else {
        match raw {
            Err(words) => Err(fault_at(offset, EntryFaultModel::NotAnEntry(words))),
            Ok(m) => entry_line(m, offset, session),
        }
    }
}

/// A line without the carriage return at its end.
pub open spec fn without_return(line: Seq<u8>) -> Seq<u8> {
    if line.len() > 0 && line.last() == 13 {
        line.drop_last()
    } else {
        line
    }
}

/// All bytes are ASCII white space.
pub open spec fn blank_bytes(line: Seq<u8>) -> bool {
    forall|i: int| 0 <= i < line.len() ==> import::is_ascii_white(#[trigger] line[i])
}

fn title_of(text: &Option<String>, refused: Option<&str>) -> (r: ParsedLine)
    ensures
        r@ == title_line(
            models::opt_text(*text),
            match refused {
                Some(s) => Some(s@),
                None => None,
            },
        ),
{
    match text {
        Some(t) => {
            let title = trim(t.as_str());
            if title.as_str().is_empty() {
                return ParsedLine::Skipped;
            }
            match refused {
                Some(s) => if text_equal(title.as_str(), s) {
                    ParsedLine::Skipped
                } else {
                    ParsedLine::Title(title)
                },
                None => ParsedLine::Title(title),
            }
        },
        None => ParsedLine::Skipped,
    }
}

fn is_some_text(o: &Option<String>, s: &str) -> (r: bool)
    ensures
        r == (models::opt_text(*o) == Some(s@)),
{
    match o {
        Some(x) => text_equal(x.as_str(), s),
        None => false,
    }
}

fn parse_chain_only(raw: &RawEntry, kind: &str, offset: u64) -> (r: Result<
    ParsedLine,
    TranscriptError,
>)
    ensures
        match chain_only(raw@, kind@, offset) {
            Ok(n) => r matches Ok(l) && l@ == n,
            Err(f) => r matches Err(e) && e@ == f,
        },
{
    let system = text_equal(kind, "system");
    let attachment = text_equal(kind, "attachment");
    if raw.message.is_some() && !system && !attachment {
        return Err(malformed(offset, EntryFault::UnknownWithMessage(kind.to_owned())));
    }
    let uuid = match &raw.uuid {
        Some(uuid) => uuid.clone(),
        None => {
            return Ok(ParsedLine::Skipped);
        },
    };
    let other = if system && is_some_text(&raw.subtype, "compact_boundary") {
        OtherKind::CompactBoundary
    } else if system && is_some_text(&raw.subtype, "stop_hook_summary") {
        OtherKind::StopHookSummary
    } else if attachment {
        OtherKind::Attachment
    } else {
        OtherKind::Unknown
    };
    let parent_uuid = if other == OtherKind::CompactBoundary && raw.logical_parent_uuid.is_some() {
        copy_opt_text(&raw.logical_parent_uuid)
    } else {
        copy_opt_text(&raw.parent_uuid)
    };
    let timestamp = match &raw.timestamp {
        None => None,
        Some(t) => match Timestamp::from_rfc3339(t.as_str()) {
            Err(words) => {
                return Err(malformed(offset, EntryFault::InvalidTimestamp(t.clone(), words)));
            },
            Ok(m) => Some(m),
        },
    };
    Ok(
        ParsedLine::Entry(
            Entry {
                offset,
                uuid,
                parent_uuid,
                timestamp,
                cwd: copy_opt_text(&raw.cwd),
                payload: Payload::Other(other),
            },
        ),
    )
}

fn parse_payload(raw: &RawEntry, kind: &str, message: &Json, content: &Json, offset: u64) -> (r: Result<
    Payload,
    TranscriptError,
>)
    ensures
        match message_payload(raw@, kind@, message@, content@, offset) {
            Ok(n) => r matches Ok(p) && p@ == n,
            Err(f) => r matches Err(e) && e@ == f,
        },
{
    if text_equal(kind, "user") {
        match parse_user_content(
            content,
            offset,
            raw.is_meta == Some(true),
            raw.is_compact_summary == Some(true),
        ) {
            Err(e) => Err(e),
            Ok(m) => Ok(Payload::User(m)),
        }
    } else if raw.is_api_error_message == Some(true) {
        Ok(Payload::Other(OtherKind::Unknown))
    } else {
        match parse_assistant_content(content, offset) {
            Err(e) => Err(e),
            Ok(blocks) => {
                let request_id = match &raw.request_id {
                    Some(s) => if s.as_str().is_empty() {
                        None
                    } else {
                        Some(s.clone())
                    },
                    None => None,
                };
                let model = match message.text_at("model") {
                    Some(s) => Some(s.clone()),
                    None => None,
                };
                Ok(Payload::Assistant(AssistantMessage { request_id, model, blocks }))
            },
        }
    }
}

fn parse_message(raw: &RawEntry, kind: &str, offset: u64) -> (r: Result<
    ParsedLine,
    TranscriptError,
>)
    ensures
        match message_entry(raw@, kind@, offset) {
            Ok(n) => r matches Ok(l) && l@ == n,
            Err(f) => r matches Err(e) && e@ == f,
        },
{
    let uuid = match &raw.uuid {
        Some(uuid) => uuid.clone(),
        None => {
            return Err(malformed(offset, EntryFault::NoUuid));
        },
    };
    if raw.session_id.is_none() {
        return Err(malformed(offset, EntryFault::NoSession));
    }
    let timestamp = match &raw.timestamp {
        None => {
            return Err(malformed(offset, EntryFault::NoTimestamp));
        },
        Some(t) => match Timestamp::from_rfc3339(t.as_str()) {
            Err(words) => {
                return Err(malformed(offset, EntryFault::InvalidTimestamp(t.clone(), words)));
            },
            Ok(m) => m,
        },
    };
    let version = match &raw.version {
        Some(v) => Some(v.as_str()),
        None => None,
    };
    match check_version(version, offset) {
        Ok(_) => {},
        Err(e) => {
            return Err(e);
        },
    }
    let message = match &raw.message {
        Some(message) => message,
        None => {
            return Err(malformed(offset, EntryFault::NoMessage));
        },
    };
    match message.text_at("role") {
        None => {
            return Err(malformed(offset, EntryFault::NoRole));
        },
        Some(role) => {
            if !text_equal(role.as_str(), kind) {
                return Err(
                    malformed(offset, EntryFault::RoleMismatch(role.clone(), kind.to_owned())),
                );
            }
        },
    }
    let content = match message.get("content") {
        Some(content) => content,
        None => {
            return Err(malformed(offset, EntryFault::NoContent));
        },
    };
    match parse_payload(raw, kind, message, content, offset) {
        Err(e) => Err(e),
        Ok(payload) => Ok(
            ParsedLine::Entry(
                Entry {
                    offset,
                    uuid,
                    parent_uuid: copy_opt_text(&raw.parent_uuid),
                    timestamp: Some(timestamp),
                    cwd: copy_opt_text(&raw.cwd),
                    payload,
                },
            ),
        ),
    }
}

/// What an entry stands for.
pub fn parse_entry(raw: &RawEntry, offset: u64, expected_session: &str) -> (r: Result<
    ParsedLine,
    TranscriptError,
>)
    ensures
        match entry_line(raw@, offset, expected_session@) {
            Ok(n) => r matches Ok(l) && l@ == n,
            Err(f) => r matches Err(e) && e@ == f,
        },
{
    let kind = match &raw.kind {
        Some(kind) => kind.as_str(),
        None => {
            return Err(malformed(offset, EntryFault::NoType));
        },
    };
    match &raw.session_id {
        Some(session) => {
            if !text_equal(session.as_str(), expected_session) {
                return Err(
                    TranscriptError::SessionMismatch {
                        offset,
                        expected: expected_session.to_owned(),
                        found: session.clone(),
                    },
                );
            }
        },
        None => {},
    }
    if raw.is_sidechain == Some(true) {
        return Ok(ParsedLine::Skipped);
    }
    if text_equal(kind, "user") || text_equal(kind, "assistant") {
        parse_message(raw, kind, offset)
    } else if text_equal(kind, "custom-title") {
        Ok(title_of(&raw.custom_title, Some("New session")))
    } else if text_equal(kind, "summary") {
        Ok(title_of(&raw.summary, None))
    } else {
        parse_chain_only(raw, kind, offset)
    }
}

fn is_blank_bytes(line: &[u8]) -> (r: bool)
    ensures
        r == blank_bytes(line@),
{
    let n: usize = line.len();
    let mut i: usize = 0;
    while i < n
        invariant
            i <= n,
            n == line@.len(),
            forall|k: int| 0 <= k < i ==> import::is_ascii_white(#[trigger] line@[k]),
        decreases n - i,
    {
        let b = line[i];
        if !(b == 32 || b == 9 || b == 10 || b == 12 || b == 13) {
            assert(!import::is_ascii_white(line@[i as int]));
            return false;
        }
        i += 1;
    }
    true
}

/// The part of a line that may be JSON: the line without the carriage return
/// at its end.
pub fn line_body(line: &[u8]) -> (r: &[u8])
    ensures
        r@ == without_return(line@),
{
    let n: usize = line.len();
    if n > 0 && line[n - 1] == 13 {
        let r = vstd::slice::slice_subrange(line, 0, n - 1);
        assert(r@ =~= line@.drop_last());
        r
    } else {
        line
    }
}

/// Parses one transcript line located at `offset`. `raw` holds the fields that
/// the line's JSON gives, or the words that say why it is no JSON object of that
/// kind.
pub fn parse_line(line: &[u8], raw: &Result<RawEntry, String>, offset: u64, expected_session: &str) -> (r:
    Result<ParsedLine, TranscriptError>)
    ensures
        match parsed_line(line@, raw_model(*raw), offset, expected_session@) {
            Ok(n) => r matches Ok(l) && l@ == n,
            Err(f) => r matches Err(e) && e@ == f,
        },
{
    let body = line_body(line);
    if is_blank_bytes(body) {
        return Ok(ParsedLine::Skipped);
    }
    if body.len() > MAX_LINE_BYTES {
        return Err(malformed(offset, EntryFault::LineTooLong));
    }
    match raw {
        Err(words) => Err(malformed(offset, EntryFault::NotAnEntry(words.clone()))),
        Ok(raw) => parse_entry(raw, offset, expected_session),
    }
}

/// The contents of the fields of a line, or why it has none.
pub open spec fn raw_model(o: Result<RawEntry, String>) -> Result<RawModel, Seq<char>> {
    match o {
        Ok(r) => Ok(r@),
        Err(words) => Err(words@),
    }
}

/// The contents of the fields of lines.
pub open spec fn raw_models(s: Seq<Result<RawEntry, String>>) -> Seq<Result<RawModel, Seq<char>>> {
    s.map_values(|x: Result<RawEntry, String>| raw_model(x))
}

/// The fields of line `k`.
pub open spec fn raw_at(raws: Seq<Result<RawModel, Seq<char>>>, k: int) -> Result<
    RawModel,
    Seq<char>,
> {
    if 0 <= k < raws.len() {
        raws[k]
    } else {
        Err("the line was not read"@)
    }
}

/// Where the next line feed stands, at or behind position `i`.
pub open spec fn next_feed(bytes: Seq<u8>, i: int) -> int
    decreases bytes.len() - i,
{
    if i < 0 || i >= bytes.len() {
        bytes.len() as int
    } else if bytes[i] == 10 {
        i
    } else {
        next_feed(bytes, i + 1)
    }
}

/// Where the lines of a window begin and end, from byte `from` on. The last
/// one may lack its line feed.
pub open spec fn line_spans(bytes: Seq<u8>, from: int) -> Seq<(int, int)>
    decreases bytes.len() - from,
{
    if from < 0 || from >= bytes.len() {
        Seq::empty()
    } else {
        let end = next_feed(bytes, from);
        if end < from {
            Seq::empty()
        } else if end >= bytes.len() {
            seq![(from, end)]
        } else {
            seq![(from, end)] + line_spans(bytes, end + 1)
        }
    }
}

pub proof fn lemma_next_feed(bytes: Seq<u8>, i: int)
    requires
        0 <= i <= bytes.len(),
    ensures
        i <= next_feed(bytes, i) <= bytes.len(),
        next_feed(bytes, i) < bytes.len() ==> bytes[next_feed(bytes, i)] == 10,
    decreases bytes.len() - i,
{
    if i < bytes.len() && bytes[i] != 10 {
        lemma_next_feed(bytes, i + 1);
    }
}

fn find_feed(bytes: &[u8], from: usize) -> (r: usize)
    requires
        from <= bytes@.len(),
    ensures
        r == next_feed(bytes@, from as int),
        from <= r <= bytes@.len(),
{
    let n: usize = bytes.len();
    let mut i: usize = from;
    while i < n
        invariant
            from <= i <= n,
            n == bytes@.len(),
            next_feed(bytes@, from as int) == next_feed(bytes@, i as int),
        decreases n - i,
    {
        if bytes[i] == 10 {
            return i;
        }
        i += 1;
    }
    i
}

/// Where the lines of a window begin and end.
pub fn window_lines(bytes: &[u8]) -> (r: Vec<(usize, usize)>)
    ensures
        r@.map_values(|s: (usize, usize)| (s.0 as int, s.1 as int)) == line_spans(bytes@, 0),
{
    let n: usize = bytes.len();
    let mut out: Vec<(usize, usize)> = Vec::new();
    let mut from: usize = 0;
    let ghost to_int = |s: (usize, usize)| (s.0 as int, s.1 as int);
    assert(out@.map_values(to_int) + line_spans(bytes@, 0) =~= line_spans(bytes@, 0));
    while from < n
        invariant
            from <= n,
            n == bytes@.len(),
            to_int == (|s: (usize, usize)| (s.0 as int, s.1 as int)),
            out@.map_values(to_int) + line_spans(bytes@, from as int) == line_spans(bytes@, 0),
        decreases n - from,
    {
        let end = find_feed(bytes, from);
        let ghost held = out@.map_values(to_int);
        out.push((from, end));
        proof {
            assert(out@.map_values(to_int) =~= held.push((from as int, end as int)));
            let rest = line_spans(bytes@, end + 1);
            assert(line_spans(bytes@, from as int) =~= seq![(from as int, end as int)] + rest);
            assert(out@.map_values(to_int) + rest =~= held + (seq![
                (from as int, end as int),
            ] + rest));
            if end >= n {
                assert(line_spans(bytes@, n as int) =~= rest);
            }
        }
        if end < n {
            from = end + 1;
        } else {
            from = n;
        }
    }
    assert(line_spans(bytes@, from as int) =~= Seq::empty());
    out
}

/// The complete lines of one read of the transcript from a cursor onward.
#[derive(Debug)]
pub struct Window {
    pub lines: Vec<ParsedLine>,
    /// Bytes (from the window start) covered by complete, parsed lines.
    pub consumed: u64,
    /// A trailing partial line was left for a later read.
    pub truncated_tail: bool,
}

/// The contents of [`Window`].
#[verifier::ext_equal]
pub struct WindowModel {
    pub lines: Seq<LineModel>,
    pub consumed: int,
    pub truncated_tail: bool,
}

impl View for Window {
    type V = WindowModel;

    open spec fn view(&self) -> WindowModel {
        WindowModel {
            lines: line_models(self.lines@),
            consumed: self.consumed as int,
            truncated_tail: self.truncated_tail,
        }
    }
}

/// Reading the lines of a window from line `k` on, which begins at byte `from`.
/// A last line without a line feed counts only if it already parses: a partial
/// write is expected while a session is live, and no format error until it is
/// complete.
pub open spec fn read_lines(
    bytes: Seq<u8>,
    raws: Seq<Result<RawModel, Seq<char>>>,
    base: int,
    session: Seq<char>,
    from: int,
    k: int,
    w: WindowModel,
) -> Result<WindowModel, TranscriptFault>
    decreases bytes.len() - from,
{
    if from < 0 || from >= bytes.len() {
        Ok(w)
    } else {
        let end = next_feed(bytes, from);
        let raw = raw_at(raws, k);
        if end < from {
            Ok(w)
        } else {
            match parsed_line(bytes.subrange(from, end), raw, (base + from) as u64, session) {
                Ok(line) => if end < bytes.len() {
                    read_lines(
                        bytes,
                        raws,
                        base,
                        session,
                        end + 1,
                        k + 1,
                        WindowModel { lines: w.lines.push(line), consumed: end + 1, ..w },
                    )
                } else {
                    Ok(
                        WindowModel {
                            lines: w.lines.push(line),
                            consumed: bytes.len() as int,
                            ..w
                        },
                    )
                },
                Err(f) => if end == bytes.len() && f is Malformed {
                    Ok(WindowModel { truncated_tail: true, ..w })
                } else {
                    Err(f)
                },
            }
        }
    }
}

/// A window of which nothing has been read yet.
pub open spec fn empty_window() -> WindowModel {
    WindowModel { lines: Seq::empty(), consumed: 0, truncated_tail: false }
}

/// Parses every complete line in `bytes`, which starts at file offset `base`.
/// `raws` holds the fields of the lines in their order. A trailing line without
/// a newline is accepted only if it already parses as a complete entry;
/// otherwise it is left unconsumed for the next read.
pub fn parse_window(bytes: &[u8], raws: &Vec<Result<RawEntry, String>>, base: u64, expected_session: &str) -> (r:
    Result<Window, TranscriptError>)
    requires
        base + bytes@.len() <= u64::MAX,
    ensures
        match read_lines(
            bytes@,
            raw_models(raws@),
            base as int,
            expected_session@,
            0,
            0,
            empty_window(),
        ) {
            Ok(n) => r matches Ok(w) && w@ == n,
            Err(f) => r matches Err(e) && e@ == f,
        },
{
    let n: usize = bytes.len();
    let ghost rs = raw_models(raws@);
    let mut w = Window { lines: Vec::new(), consumed: 0, truncated_tail: false };
    assert(w@ =~= empty_window());
    let unread: Result<RawEntry, String> = Err("the line was not read".to_owned());
    let mut from: usize = 0;
    let mut k: usize = 0;
    while from < n
        invariant
            from <= n,
            k <= from,
            n == bytes@.len(),
            base + n <= u64::MAX,
            raw_model(unread) == Err::<RawModel, Seq<char>>("the line was not read"@),
            rs == raw_models(raws@),
            read_lines(bytes@, rs, base as int, expected_session@, 0, 0, empty_window())
                == read_lines(
                bytes@,
                rs,
                base as int,
                expected_session@,
                from as int,
                k as int,
                w@,
            ),
        decreases n - from,
    {
        let end = find_feed(bytes, from);
        let line = vstd::slice::slice_subrange(bytes, from, end);
        let raw: &Result<RawEntry, String> = if k < raws.len() {
            assert(rs[k as int] == raw_model(raws@[k as int]));
            &raws[k]
        } else {
            &unread
        };
        let ghost held = w@;
        match parse_line(line, raw, base + from as u64, expected_session) {
            Ok(parsed) => {
                let ghost x = parsed@;
                w.lines.push(parsed);
                assert(line_models(w.lines@) =~= held.lines.push(x));
                if end < n {
                    w.consumed = (end + 1) as u64;
                    from = end + 1;
                    k += 1;
                } else {
                    w.consumed = n as u64;
                    assert(w@ =~= (WindowModel {
                        lines: held.lines.push(x),
                        consumed: n as int,
                        ..held
                    }));
                    return Ok(w);
                }
            },
            Err(e) => {
                let partial = match &e {
                    TranscriptError::Malformed { .. } => true,
                    _ => false,
                };
                if end == n && partial {
                    w.truncated_tail = true;
                    return Ok(w);
                }
                return Err(e);
            },
        }
    }
    Ok(w)
}

/// Bytes that end with a line: none, or the last is a line feed.
pub open spec fn ends_a_line(bytes: Seq<u8>) -> bool {
    bytes.len() == 0 || bytes.last() == 10
}

pub proof fn lemma_feed_in_front(a: Seq<u8>, b: Seq<u8>, i: int)
    requires
        0 <= i < a.len(),
        ends_a_line(a),
    ensures
        i <= next_feed(a, i) < a.len(),
        next_feed(a + b, i) == next_feed(a, i),
    decreases a.len() - i,
{
    assert((a + b)[i] == a[i]);
    if a[i] != 10 {
        lemma_feed_in_front(a, b, i + 1);
    }
}

proof fn lemma_feed_behind(a: Seq<u8>, b: Seq<u8>, i: int)
    requires
        0 <= i <= b.len(),
    ensures
        next_feed(a + b, a.len() + i) == a.len() + next_feed(b, i),
    decreases b.len() - i,
{
    if i < b.len() {
        assert((a + b)[a.len() + i] == b[i]);
        if b[i] != 10 {
            lemma_feed_behind(a, b, i + 1);
        }
    }
}

/// The lines of the first bytes are read as if nothing followed.
proof fn lemma_front_lines(
    a: Seq<u8>,
    b: Seq<u8>,
    ra: Seq<Result<RawModel, Seq<char>>>,
    rb: Seq<Result<RawModel, Seq<char>>>,
    base: int,
    session: Seq<char>,
    from: int,
    k: int,
    w: WindowModel,
)
    requires
        ends_a_line(a),
        0 <= from <= a.len(),
        0 <= k,
        k + line_spans(a, from).len() == ra.len(),
        read_lines(a, ra, base, session, from, k, w) is Ok,
        w.consumed == from,
    ensures
        ({
            let done = read_lines(a, ra, base, session, from, k, w)->Ok_0;
            &&& done.consumed == a.len()
            &&& done.truncated_tail == w.truncated_tail
            &&& read_lines(a + b, ra + rb, base, session, from, k, w) == read_lines(
                a + b,
                ra + rb,
                base,
                session,
                a.len() as int,
                ra.len() as int,
                done,
            )
        }),
    decreases a.len() - from,
{
    if from < a.len() {
        lemma_feed_in_front(a, b, from);
        let end = next_feed(a, from);
        assert((a + b).subrange(from, end) =~= a.subrange(from, end));
        assert(line_spans(a, from) == seq![(from, end)] + line_spans(a, end + 1));
        assert((ra + rb)[k] == ra[k]);
        let parsed = parsed_line(a.subrange(from, end), ra[k], (base + from) as u64, session);
        let next = WindowModel { lines: w.lines.push(parsed->Ok_0), consumed: end + 1, ..w };
        lemma_front_lines(a, b, ra, rb, base, session, end + 1, k + 1, next);
    }
}

/// The window read behind another one.
pub open spec fn window_behind(w: WindowModel, v: WindowModel) -> WindowModel {
    WindowModel {
        lines: w.lines + v.lines,
        consumed: w.consumed + v.consumed,
        truncated_tail: v.truncated_tail,
    }
}

/// The lines of the last bytes are read as if they began the window.
proof fn lemma_back_lines(
    a: Seq<u8>,
    b: Seq<u8>,
    ra: Seq<Result<RawModel, Seq<char>>>,
    rb: Seq<Result<RawModel, Seq<char>>>,
    base: int,
    session: Seq<char>,
    from: int,
    k: int,
    w: WindowModel,
    v: WindowModel,
)
    requires
        0 <= from <= b.len(),
        0 <= k,
        w.consumed == a.len(),
    ensures
        read_lines(
            a + b,
            ra + rb,
            base,
            session,
            a.len() + from,
            ra.len() + k,
            window_behind(w, v),
        ) == match read_lines(b, rb, base + a.len(), session, from, k, v) {
            Ok(x) => Ok::<WindowModel, TranscriptFault>(window_behind(w, x)),
            Err(f) => Err(f),
        },
    decreases b.len() - from,
{
    if from < b.len() {
        lemma_feed_behind(a, b, from);
        lemma_next_feed(b, from);
        let end = next_feed(b, from);
        assert((a + b).subrange(a.len() + from, a.len() + end) =~= b.subrange(from, end));
        let raw = raw_at(rb, k);
        if k < rb.len() {
            assert((ra + rb)[ra.len() + k] == rb[k]);
        }
        match parsed_line(b.subrange(from, end), raw, (base + a.len() + from) as u64, session) {
            Ok(line) => {
                let next = WindowModel { lines: v.lines.push(line), consumed: end + 1, ..v };
                assert(w.lines + v.lines.push(line) =~= (w.lines + v.lines).push(line));
                if end < b.len() {
                    lemma_back_lines(a, b, ra, rb, base, session, end + 1, k + 1, w, next);
                }
            },
            Err(_) => {},
        }
    }
}

/// A transcript read in two parts, cut behind a line, gives the lines of the
/// whole: reading the second part from where the first one ended continues it.
pub proof fn law_window_reads_in_parts(
    a: Seq<u8>,
    b: Seq<u8>,
    ra: Seq<Result<RawModel, Seq<char>>>,
    rb: Seq<Result<RawModel, Seq<char>>>,
    base: int,
    session: Seq<char>,
)
    requires
        ends_a_line(a),
        ra.len() == line_spans(a, 0).len(),
        read_lines(a, ra, base, session, 0, 0, empty_window()) is Ok,
    ensures
        ({
            let first = read_lines(a, ra, base, session, 0, 0, empty_window())->Ok_0;
            let second = read_lines(b, rb, base + a.len(), session, 0, 0, empty_window());
            let whole = read_lines(a + b, ra + rb, base, session, 0, 0, empty_window());
            &&& first.consumed == a.len()
            &&& !first.truncated_tail
            &&& match second {
                Ok(rest) => whole == Ok::<WindowModel, TranscriptFault>(
                    WindowModel {
                        lines: first.lines + rest.lines,
                        consumed: a.len() + rest.consumed,
                        truncated_tail: rest.truncated_tail,
                    },
                ),
                Err(f) => whole == Err::<WindowModel, TranscriptFault>(f),
            }
        }),
{
    lemma_front_lines(a, b, ra, rb, base, session, 0, 0, empty_window());
    let first = read_lines(a, ra, base, session, 0, 0, empty_window())->Ok_0;
    assert(window_behind(first, empty_window()) =~= first) by {
        assert(first.lines + Seq::<LineModel>::empty() =~= first.lines);
    }
    lemma_back_lines(a, b, ra, rb, base, session, 0, 0, first, empty_window());
}

} // verus!
