//! What is read of a transcript: its lines, their entries, and everything the entries
//! say.

use crate::json;
use crate::json::JsonModel;
use crate::models;
use crate::text;
use crate::transcript;
use crate::transcript::{
    BlockModel, LineModel, OtherKind, PayloadModel, RawModel, ResultModel, TranscriptFault,
    UserModel, WindowModel,
};
use vstd::prelude::*;

verus! {

/// The text under a name of a document, where there is one.
pub open spec fn text_under(doc: JsonModel, name: Seq<char>) -> Option<Seq<char>> {
    match json::member(doc, name) {
        Some(JsonModel::Text(t)) => Some(t),
        _ => None,
    }
}

/// The text under a name of a document, empty where there is none.
pub open spec fn text_held(doc: JsonModel, name: Seq<char>) -> Seq<char> {
    match json::member(doc, name) {
        Some(JsonModel::Text(t)) => t,
        _ => Seq::empty(),
    }
}

/// The result of a tool of the service itself.
pub open spec fn result_of_service(kind: Seq<char>) -> bool {
    kind == "web_search_tool_result"@ || kind == "web_fetch_tool_result"@ || kind
        == "code_execution_tool_result"@
}

/// A block that an assistant's message may hold.
pub open spec fn is_known_block(b: JsonModel) -> bool {
    match text_under(b, "type"@) {
        None => false,
        Some(kind) => {
            ||| kind == "text"@ || kind == "thinking"@ || kind == "redacted_thinking"@
            ||| result_of_service(kind)
            ||| (kind == "tool_use"@ || kind == "server_tool_use"@) && text_under(b, "id"@) is Some
                && text_under(b, "name"@) is Some
        },
    }
}

/// What is kept of a block of an assistant's message.
pub open spec fn kept_block(b: JsonModel) -> Option<BlockModel> {
    let kind = text_under(b, "type"@)->0;
    if kind == "text"@ {
        Some(BlockModel::Text(text_held(b, "text"@)))
    } else if kind == "thinking"@ {
        Some(BlockModel::Thinking(text_held(b, "thinking"@)))
    } else if kind == "tool_use"@ || kind == "server_tool_use"@ {
        let name = text_under(b, "name"@)->0;
        Some(
            BlockModel::ToolUse {
                id: text_under(b, "id"@)->0,
                name: if kind == "tool_use"@ {
                    name
                } else {
                    "server:"@ + name
                },
                input: match json::member(b, "input"@) {
                    Some(input) => input,
                    None => JsonModel::Null,
                },
            },
        )
    } else if result_of_service(kind) {
        Some(BlockModel::Text("["@ + kind + "]"@))
    } else {
        None
    }
}

proof fn lemma_kinds_differ()
    ensures
        "text"@ != "thinking"@,
        "text"@ != "redacted_thinking"@,
        "text"@ != "tool_use"@,
        "text"@ != "server_tool_use"@,
        "thinking"@ != "redacted_thinking"@,
        "thinking"@ != "tool_use"@,
        "thinking"@ != "server_tool_use"@,
        "redacted_thinking"@ != "tool_use"@,
        "redacted_thinking"@ != "server_tool_use"@,
        "tool_use"@ != "server_tool_use"@,
        !result_of_service("text"@),
        !result_of_service("thinking"@),
        !result_of_service("redacted_thinking"@),
        !result_of_service("tool_use"@),
        !result_of_service("server_tool_use"@),
{
    reveal_strlit("text");
    reveal_strlit("thinking");
    reveal_strlit("redacted_thinking");
    reveal_strlit("tool_use");
    reveal_strlit("server_tool_use");
    reveal_strlit("web_search_tool_result");
    reveal_strlit("web_fetch_tool_result");
    reveal_strlit("code_execution_tool_result");
    assert("thinking"@[1] == 'h' && "tool_use"@[1] == 'o');
    assert("text"@.len() == 4 && "thinking"@.len() == 8 && "redacted_thinking"@.len() == 17);
    assert("tool_use"@.len() == 8 && "server_tool_use"@.len() == 15);
    assert("web_search_tool_result"@.len() == 22 && "web_fetch_tool_result"@.len() == 21);
    assert("code_execution_tool_result"@.len() == 26);
}

proof fn lemma_assistant_blocks(bs: Seq<BlockModel>, blocks: Seq<JsonModel>, k: int, offset: u64)
    requires
        0 <= k <= blocks.len(),
    ensures
        ({
            let out = transcript::with_assistant_blocks(bs, blocks, k, offset);
            &&& out is Ok <==> forall|i: int|
                k <= i < blocks.len() ==> is_known_block(#[trigger] blocks[i])
            &&& out matches Ok(all) ==> all == bs + blocks.skip(k).filter_map(
                |b: JsonModel| kept_block(b),
            )
        }),
    decreases blocks.len() - k,
{
    let f = |b: JsonModel| kept_block(b);
    lemma_kinds_differ();
    if k < blocks.len() {
        let b = blocks[k];
        let one = transcript::with_assistant_block(bs, b, offset);
        assert(one is Ok <==> is_known_block(b));
        if let Ok(next) = one {
            lemma_assistant_blocks(next, blocks, k + 1, offset);
            let rest = blocks.skip(k + 1);
            assert(blocks.skip(k) =~= seq![b] + rest);
            lemma_filter_map_first(b, rest, f);
            match kept_block(b) {
                Some(x) => {
                    assert(next == bs.push(x));
                    assert(bs.push(x) + rest.filter_map(f) =~= bs + (seq![x] + rest.filter_map(f)));
                },
                None => {
                    assert(next == bs);
                },
            }
        }
    } else {
        assert(blocks.skip(k) =~= Seq::empty());
        reveal_with_fuel(Seq::filter_map, 2);
        assert(bs + Seq::<BlockModel>::empty() =~= bs);
    }
}

pub proof fn lemma_filter_map_first<A, B>(x: A, s: Seq<A>, f: spec_fn(A) -> Option<B>)
    ensures
        (seq![x] + s).filter_map(f) == match f(x) {
            Some(y) => seq![y] + s.filter_map(f),
            None => s.filter_map(f),
        },
    decreases s.len(),
{
    reveal_with_fuel(Seq::filter_map, 2);
    let t = seq![x] + s;
    if s.len() == 0 {
        assert(t.drop_last() =~= Seq::<A>::empty());
        assert(t.last() == x);
        assert(s.filter_map(f) =~= Seq::<B>::empty());
        assert(t.drop_last().filter_map(f) =~= Seq::<B>::empty());
        if let Some(y) = f(x) {
            assert(Seq::<B>::empty() + seq![y] =~= seq![y] + Seq::<B>::empty());
        }
    } else {
        lemma_filter_map_first(x, s.drop_last(), f);
        assert(t.drop_last() =~= seq![x] + s.drop_last());
        assert(t.last() == s.last());
        let before = s.drop_last().filter_map(f);
        if let Some(z) = f(s.last()) {
            assert(s.filter_map(f) == before + seq![z]);
            if let Some(y) = f(x) {
                assert((seq![y] + before) + seq![z] =~= seq![y] + (before + seq![z]));
            }
        }
    }
}

/// An assistant's message is read exactly where all its blocks are known, and then
/// every one of them is kept, in its order, but for redacted thoughts.
pub proof fn law_assistant_blocks_are_read(blocks: Seq<JsonModel>, offset: u64)
    ensures
        ({
            let out = transcript::assistant_content(JsonModel::List(blocks), offset);
            &&& out is Ok <==> forall|i: int|
                0 <= i < blocks.len() ==> is_known_block(#[trigger] blocks[i])
            &&& out matches Ok(all) ==> all == blocks.filter_map(|b: JsonModel| kept_block(b))
        }),
        forall|t: Seq<char>| #[trigger]
            transcript::assistant_content(JsonModel::Text(t), offset) == Ok::<
                Seq<BlockModel>,
                TranscriptFault,
            >(seq![BlockModel::Text(t)]),
{
    lemma_assistant_blocks(Seq::empty(), blocks, 0, offset);
    assert(blocks.skip(0) =~= blocks);
    let f = |b: JsonModel| kept_block(b);
    assert(Seq::<BlockModel>::empty() + blocks.filter_map(f) =~= blocks.filter_map(f));
}

/// A block that a user's message may hold.
pub open spec fn is_known_part(b: JsonModel) -> bool {
    match text_under(b, "type"@) {
        None => false,
        Some(kind) => {
            ||| kind == "text"@ || kind == "image"@ || kind == "document"@
            ||| kind == "tool_result"@ && text_under(b, "tool_use_id"@) is Some
        },
    }
}

/// The text that is kept of a block of a user's message.
pub open spec fn kept_text(b: JsonModel) -> Option<Seq<char>> {
    let kind = text_under(b, "type"@)->0;
    if kind == "text"@ {
        Some(text_held(b, "text"@))
    } else if kind == "image"@ {
        Some("[image]"@)
    } else if kind == "document"@ {
        Some("[document]"@)
    } else {
        None
    }
}

/// The result that is kept of a block of a user's message.
pub open spec fn kept_result(b: JsonModel) -> Option<ResultModel> {
    if text_under(b, "type"@) == Some("tool_result"@) {
        Some(
            ResultModel {
                tool_use_id: text_under(b, "tool_use_id"@)->0,
                content: transcript::shown_result(json::member(b, "content"@)),
                is_error: json::member(b, "is_error"@) == Some(JsonModel::Bool(true)),
            },
        )
    } else {
        None
    }
}

proof fn lemma_parts_differ()
    ensures
        "text"@ != "image"@,
        "text"@ != "document"@,
        "text"@ != "tool_result"@,
        "image"@ != "document"@,
        "image"@ != "tool_result"@,
        "document"@ != "tool_result"@,
{
    reveal_strlit("text");
    reveal_strlit("image");
    reveal_strlit("document");
    reveal_strlit("tool_result");
    assert("text"@.len() == 4 && "image"@.len() == 5);
    assert("document"@.len() == 8 && "tool_result"@.len() == 11);
}

proof fn lemma_user_blocks(m: UserModel, blocks: Seq<JsonModel>, k: int, offset: u64)
    requires
        0 <= k <= blocks.len(),
    ensures
        ({
            let out = transcript::with_user_blocks(m, blocks, k, offset);
            &&& out is Ok <==> forall|i: int|
                k <= i < blocks.len() ==> is_known_part(#[trigger] blocks[i])
            &&& out matches Ok(all) ==> {
                &&& all.texts == m.texts + blocks.skip(k).filter_map(|b: JsonModel| kept_text(b))
                &&& all.tool_results == m.tool_results + blocks.skip(k).filter_map(
                    |b: JsonModel| kept_result(b),
                )
                &&& all.meta == m.meta
                &&& all.compact_summary == m.compact_summary
            }
        }),
    decreases blocks.len() - k,
{
    let f = |b: JsonModel| kept_text(b);
    let g = |b: JsonModel| kept_result(b);
    lemma_parts_differ();
    if k < blocks.len() {
        let b = blocks[k];
        let one = transcript::with_user_block(m, b, offset);
        assert(one is Ok <==> is_known_part(b));
        if let Ok(next) = one {
            lemma_user_blocks(next, blocks, k + 1, offset);
            let rest = blocks.skip(k + 1);
            assert(blocks.skip(k) =~= seq![b] + rest);
            lemma_filter_map_first(b, rest, f);
            lemma_filter_map_first(b, rest, g);
            match kept_text(b) {
                Some(x) => {
                    assert(next.texts == m.texts.push(x));
                    assert(m.texts.push(x) + rest.filter_map(f) =~= m.texts + (seq![x]
                        + rest.filter_map(f)));
                },
                None => {
                    assert(next.texts == m.texts);
                },
            }
            match kept_result(b) {
                Some(x) => {
                    assert(next.tool_results == m.tool_results.push(x));
                    assert(m.tool_results.push(x) + rest.filter_map(g) =~= m.tool_results + (seq![x]
                        + rest.filter_map(g)));
                },
                None => {
                    assert(next.tool_results == m.tool_results);
                },
            }
        }
    } else {
        assert(blocks.skip(k) =~= Seq::empty());
        reveal_with_fuel(Seq::filter_map, 2);
        assert(m.texts + Seq::<Seq<char>>::empty() =~= m.texts);
        assert(m.tool_results + Seq::<ResultModel>::empty() =~= m.tool_results);
    }
}

/// A user's message is read exactly where all its blocks are known, and then all its
/// texts and all its tool results are kept, each in their order.
pub proof fn law_user_blocks_are_read(
    blocks: Seq<JsonModel>,
    offset: u64,
    meta: bool,
    compact: bool,
)
    ensures
        ({
            let out = transcript::user_content(JsonModel::List(blocks), offset, meta, compact);
            &&& out is Ok <==> forall|i: int|
                0 <= i < blocks.len() ==> is_known_part(#[trigger] blocks[i])
            &&& out matches Ok(m) ==> {
                &&& m.texts == blocks.filter_map(|b: JsonModel| kept_text(b))
                &&& m.tool_results == blocks.filter_map(|b: JsonModel| kept_result(b))
                &&& m.meta == meta
                &&& m.compact_summary == compact
            }
        }),
        forall|t: Seq<char>| #[trigger]
            transcript::user_content(JsonModel::Text(t), offset, meta, compact) == Ok::<
                UserModel,
                TranscriptFault,
            >(
                UserModel {
                    texts: seq![t],
                    tool_results: Seq::empty(),
                    meta,
                    compact_summary: compact,
                },
            ),
{
    let start = transcript::no_user_message(meta, compact);
    lemma_user_blocks(start, blocks, 0, offset);
    assert(blocks.skip(0) =~= blocks);
    let f = |b: JsonModel| kept_text(b);
    let g = |b: JsonModel| kept_result(b);
    assert(Seq::<Seq<char>>::empty() + blocks.filter_map(f) =~= blocks.filter_map(f));
    assert(Seq::<ResultModel>::empty() + blocks.filter_map(g) =~= blocks.filter_map(g));
}

/// The output of a tool is shown as it is: a text as such, blocks one to a line, texts
/// in them as such, and anything else printed.
pub proof fn law_tool_output_is_shown(doc: JsonModel)
    ensures
        ({
            let out = transcript::shown_result(Some(doc));
            &&& doc is Null ==> out.len() == 0
            &&& doc matches JsonModel::Text(t) ==> out == t
            &&& doc matches JsonModel::List(blocks) ==> out == text::joined(
                blocks.map_values(|b: JsonModel| transcript::shown_block(b)),
                "\n"@,
            )
            &&& doc is Object || doc is Bool ==> out == json::printed_json(doc)
            &&& text_under(doc, "type"@) == Some("text"@) ==> transcript::shown_block(doc)
                == text_held(doc, "text"@)
            &&& text_under(doc, "type"@) matches Some(kind) ==> kind != "text"@
                ==> transcript::shown_block(doc) == "["@ + kind + "]"@
            &&& text_under(doc, "type"@) is None ==> transcript::shown_block(doc) == "[block]"@
        }),
        transcript::shown_result(None).len() == 0,
{
}

/// The version of an entry is accepted exactly where its first part is the number of
/// the supported major version.
pub proof fn law_version_is_accepted(version: Option<Seq<char>>, offset: u64)
    ensures
        transcript::version_fault(version, offset) is None <==> version is Some && text::number_of(
            text::pieces(version->0, '.')[0],
        ) == Some(2u64),
{
}

/// An entry of the chain is what its fields say: it stands where its line begins, under
/// its own name, behind the entry that it names, at its moment and in its directory; it
/// is of the session that is read and of no side chain.
pub proof fn law_entry_is_what_its_fields_say(raw: RawModel, offset: u64, session: Seq<char>)
    ensures
        transcript::entry_line(raw, offset, session) matches Ok(LineModel::Entry(e)) ==> {
            &&& e.offset == offset
            &&& raw.uuid == Some(e.uuid)
            &&& e.cwd == raw.cwd
            &&& raw.session_id is None || raw.session_id == Some(session)
            &&& raw.is_sidechain != Some(true)
            &&& match raw.timestamp {
                Some(t) => models::moment_of(t) is Ok && e.timestamp == Some(
                    models::moment_of(t)->Ok_0,
                ),
                None => e.timestamp is None,
            }
            &&& if e.payload == PayloadModel::Other(OtherKind::CompactBoundary)
                && raw.logical_parent_uuid is Some {
                e.parent_uuid == raw.logical_parent_uuid
            } else {
                e.parent_uuid == raw.parent_uuid
            }
            &&& e.payload is User ==> raw.kind == Some("user"@)
            &&& e.payload is Assistant ==> raw.kind == Some("assistant"@)
        },
{
    reveal_strlit("user");
    reveal_strlit("assistant");
    assert("user"@.len() == 4 && "assistant"@.len() == 9);
}

/// A message of the session is taken up with everything it says: exactly where it has
/// a name, a session, a moment, a supported version and a message of its own role
/// whose content is known.
pub proof fn law_messages_are_taken_up(raw: RawModel, offset: u64, session: Seq<char>)
    requires
        raw.kind == Some("user"@) || raw.kind == Some("assistant"@),
        raw.is_sidechain != Some(true),
    ensures
        ({
            let out = transcript::entry_line(raw, offset, session);
            let kind = raw.kind->0;
            let whole = raw.uuid is Some && raw.session_id == Some(session) && raw.timestamp is Some
                && models::moment_of(raw.timestamp->0) is Ok && transcript::version_fault(
                raw.version,
                offset,
            ) is None && raw.message is Some && text_under(raw.message->0, "role"@) == Some(kind)
                && json::member(raw.message->0, "content"@) is Some;
            let content = json::member(raw.message->0, "content"@)->0;
            let said = transcript::user_content(
                content,
                offset,
                raw.is_meta == Some(true),
                raw.is_compact_summary == Some(true),
            );
            let made = transcript::assistant_content(content, offset);
            &&& kind == "user"@ ==> (out is Ok <==> whole && said is Ok)
            &&& kind == "user"@ && out is Ok ==> (out->Ok_0 matches LineModel::Entry(e) && e.payload
                == PayloadModel::User(said->Ok_0))
            &&& kind == "assistant"@ && raw.is_api_error_message != Some(true) ==> (out is Ok
                <==> whole && made is Ok)
            &&& kind == "assistant"@ && raw.is_api_error_message != Some(true) && out is Ok ==> (
            out->Ok_0 matches LineModel::Entry(e) && (e.payload matches PayloadModel::Assistant(m)
                && m.blocks == made->Ok_0 && m.model == text_under(raw.message->0, "model"@)
                && m.request_id == if raw.request_id is Some && raw.request_id->0.len() > 0 {
                raw.request_id
            } else {
                None
            }))
            &&& kind == "assistant"@ && raw.is_api_error_message == Some(true) && whole ==> (
            out matches Ok(LineModel::Entry(e)) && e.payload == PayloadModel::Other(
                OtherKind::Unknown,
            ))
        }),
{
    reveal_strlit("user");
    reveal_strlit("assistant");
    assert("user"@.len() == 4 && "assistant"@.len() == 9);
}

/// Titles are read off their lines, without white space at their ends; a blank one and
/// the placeholder of a new session are no titles.
pub proof fn law_titles_are_read(raw: RawModel, offset: u64, session: Seq<char>)
    requires
        raw.session_id is None || raw.session_id == Some(session),
        raw.is_sidechain != Some(true),
    ensures
        ({
            let out = transcript::entry_line(raw, offset, session);
            &&& raw.kind == Some("custom-title"@) ==> out is Ok && (out->Ok_0 == LineModel::Skipped
                || raw.custom_title is Some && out->Ok_0 == LineModel::Title(
                text::trimmed(raw.custom_title->0),
            ))
            &&& raw.kind == Some("custom-title"@) && raw.custom_title is Some ==> (
            out->Ok_0 is Title <==> text::trimmed(raw.custom_title->0).len() > 0 && text::trimmed(
                raw.custom_title->0,
            ) != "New session"@)
            &&& raw.kind == Some("summary"@) ==> out is Ok && (out->Ok_0 == LineModel::Skipped
                || raw.summary is Some && out->Ok_0 == LineModel::Title(
                text::trimmed(raw.summary->0),
            ))
            &&& raw.kind == Some("summary"@) && raw.summary is Some ==> (out->Ok_0 is Title
                <==> text::trimmed(raw.summary->0).len() > 0)
        }),
{
    reveal_strlit("user");
    reveal_strlit("assistant");
    reveal_strlit("custom-title");
    reveal_strlit("summary");
    assert("user"@.len() == 4 && "assistant"@.len() == 9);
    assert("custom-title"@.len() == 12 && "summary"@.len() == 7);
}

/// A line of another session is refused, and one of a side chain passed over.
pub proof fn law_other_sessions_are_refused(raw: RawModel, offset: u64, session: Seq<char>)
    requires
        raw.kind is Some,
    ensures
        raw.session_id is Some && raw.session_id != Some(session) ==> transcript::entry_line(
            raw,
            offset,
            session,
        ) is Err,
        (raw.session_id is None || raw.session_id == Some(session)) && raw.is_sidechain == Some(
            true,
        ) ==> transcript::entry_line(raw, offset, session) == Ok::<LineModel, TranscriptFault>(
            LineModel::Skipped,
        ),
{
}

/// The lines of a window are what stands between its line feeds: none holds a feed,
/// each but the last is followed by one, and the next begins right behind it.
pub proof fn law_lines_stand_between_feeds(bytes: Seq<u8>, from: int)
    requires
        0 <= from <= bytes.len(),
    ensures
        ({
            let spans = transcript::line_spans(bytes, from);
            &&& spans.len() == 0 <==> from == bytes.len()
            &&& spans.len() > 0 ==> spans[0].0 == from && spans.last().1 >= bytes.len() - 1
            &&& forall|i: int|
                0 <= i < spans.len() ==> from <= (#[trigger] spans[i]).0 <= spans[i].1
                    <= bytes.len() && (forall|p: int|
                    spans[i].0 <= p < spans[i].1 ==> #[trigger] bytes[p] != 10) && (spans[i].1
                    < bytes.len() ==> bytes[spans[i].1] == 10)
            &&& forall|i: int|
                0 < i < spans.len() ==> (#[trigger] spans[i]).0 == spans[i - 1].1 + 1
        }),
    decreases bytes.len() - from,
{
    if from < bytes.len() {
        let end = transcript::next_feed(bytes, from);
        transcript::lemma_next_feed(bytes, from);
        lemma_no_feed_before(bytes, from);
        let spans = transcript::line_spans(bytes, from);
        if end < bytes.len() {
            law_lines_stand_between_feeds(bytes, end + 1);
            let rest = transcript::line_spans(bytes, end + 1);
            assert(spans == seq![(from, end)] + rest);
            assert forall|i: int| 1 <= i < spans.len() implies spans[i] == rest[i - 1] by {}
        }
    }
}

proof fn lemma_no_feed_before(bytes: Seq<u8>, from: int)
    requires
        0 <= from <= bytes.len(),
    ensures
        forall|p: int|
            from <= p < transcript::next_feed(bytes, from) ==> #[trigger] bytes[p] != 10,
    decreases bytes.len() - from,
{
    if from < bytes.len() && bytes[from] != 10 {
        lemma_no_feed_before(bytes, from + 1);
    }
}

/// A window that is read holds every line in its order, each read by itself from its
/// own bytes; only a last line without its feed may be missing, and the window says so.
pub proof fn law_every_line_is_read(
    bytes: Seq<u8>,
    raws: Seq<Result<RawModel, Seq<char>>>,
    base: int,
    session: Seq<char>,
)
    requires
        transcript::read_lines(bytes, raws, base, session, 0, 0, transcript::empty_window()) is Ok,
    ensures
        ({
            let out = transcript::read_lines(
                bytes,
                raws,
                base,
                session,
                0,
                0,
                transcript::empty_window(),
            )->Ok_0;
            let spans = transcript::line_spans(bytes, 0);
            &&& !out.truncated_tail ==> out.lines.len() == spans.len() && out.consumed
                == bytes.len()
            &&& out.truncated_tail ==> out.lines.len() + 1 == spans.len() && spans.last().1
                == bytes.len() && out.consumed == spans.last().0
            &&& forall|i: int|
                0 <= i < out.lines.len() ==> transcript::parsed_line(
                    bytes.subrange(spans[i].0, spans[i].1),
                    transcript::raw_at(raws, i),
                    (base + spans[i].0) as u64,
                    session,
                ) == Ok::<LineModel, TranscriptFault>(#[trigger] out.lines[i])
        }),
{
    lemma_lines_read(bytes, raws, base, session, 0, 0, transcript::empty_window());
}

proof fn lemma_lines_read(
    bytes: Seq<u8>,
    raws: Seq<Result<RawModel, Seq<char>>>,
    base: int,
    session: Seq<char>,
    from: int,
    k: int,
    w: WindowModel,
)
    requires
        0 <= from <= bytes.len(),
        0 <= k,
        w.consumed == from,
        !w.truncated_tail,
        transcript::read_lines(bytes, raws, base, session, from, k, w) is Ok,
    ensures
        ({
            let out = transcript::read_lines(bytes, raws, base, session, from, k, w)->Ok_0;
            let spans = transcript::line_spans(bytes, from);
            let n = w.lines.len();
            &&& !out.truncated_tail ==> out.lines.len() == n + spans.len() && out.consumed
                == bytes.len()
            &&& out.truncated_tail ==> out.lines.len() + 1 == n + spans.len() && spans.last().1
                == bytes.len() && out.consumed == spans.last().0
            &&& forall|i: int| 0 <= i < n ==> #[trigger] out.lines[i] == w.lines[i]
            &&& forall|i: int|
                n <= i < out.lines.len() ==> transcript::parsed_line(
                    bytes.subrange(spans[i - n].0, spans[i - n].1),
                    transcript::raw_at(raws, k + i - n),
                    (base + spans[i - n].0) as u64,
                    session,
                ) == Ok::<LineModel, TranscriptFault>(#[trigger] out.lines[i])
        }),
    decreases bytes.len() - from,
{
    let out = transcript::read_lines(bytes, raws, base, session, from, k, w)->Ok_0;
    let spans = transcript::line_spans(bytes, from);
    let n = w.lines.len();
    if from < bytes.len() {
        transcript::lemma_next_feed(bytes, from);
        let end = transcript::next_feed(bytes, from);
        let raw = transcript::raw_at(raws, k);
        let parsed = transcript::parsed_line(
            bytes.subrange(from, end),
            raw,
            (base + from) as u64,
            session,
        );
        if let Ok(line) = parsed {
            if end < bytes.len() {
                let next = WindowModel { lines: w.lines.push(line), consumed: end + 1, ..w };
                lemma_lines_read(bytes, raws, base, session, end + 1, k + 1, next);
                let rest = transcript::line_spans(bytes, end + 1);
                assert(spans == seq![(from, end)] + rest);
                if rest.len() > 0 {
                    assert(spans.last() == rest.last());
                }
                assert forall|i: int| 0 <= i < n implies #[trigger] out.lines[i] == w.lines[i] by {
                    assert(next.lines[i] == w.lines[i]);
                }
                assert forall|i: int| n <= i < out.lines.len() implies transcript::parsed_line(
                    bytes.subrange(spans[i - n].0, spans[i - n].1),
                    transcript::raw_at(raws, k + i - n),
                    (base + spans[i - n].0) as u64,
                    session,
                ) == Ok::<LineModel, TranscriptFault>(#[trigger] out.lines[i]) by {
                    if i == n {
                        assert(next.lines[n as int] == line);
                        assert(spans[0] == (from, end));
                    } else {
                        assert(spans[i - n] == rest[i - n - 1]);
                    }
                }
            } else {
                assert(spans == seq![(from, end)]);
                assert(spans[0] == (from, end));
            }
        } else {
            assert(end == bytes.len());
            assert(spans == seq![(from, end)]);
            assert(spans.last() == (from, end));
        }
    }
}

} // verus!
