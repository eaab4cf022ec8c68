//! What a captured response says of the transcript: which entries it is made of, and
//! where each part of them stands in it.

use crate::bounded;
use crate::json;
use crate::json::JsonModel;
use crate::models::{Author, InteractionId, ToolStatus};
use crate::planning;
use crate::planning::{PlanInput, PlanOutcome, StimulusModel, UseModel, plan};
use crate::rereading;
use crate::text;
use crate::textset;
use crate::transcript::{
    BlockModel, ChainModel, LineModel, OtherKind, PayloadModel, ResultModel, UserModel,
};
use vstd::prelude::*;
use vstd::string::*;

verus! {

/// The entries of a window are those of its lines, in their order.
pub proof fn law_entries_are_those_of_the_lines(lines: Seq<LineModel>)
    ensures
        planning::chain(lines, lines.len()) == lines.filter_map(
            |l: LineModel|
                match l {
                    LineModel::Entry(e) => Some(e),
                    _ => None,
                },
        ),
{
    lemma_chain(lines, lines.len());
    assert(lines.take(lines.len() as int) =~= lines);
}

proof fn lemma_chain(lines: Seq<LineModel>, n: nat)
    requires
        n <= lines.len(),
    ensures
        planning::chain(lines, n) == lines.take(n as int).filter_map(
            |l: LineModel|
                match l {
                    LineModel::Entry(e) => Some(e),
                    _ => None,
                },
        ),
    decreases n,
{
    let f = |l: LineModel|
        match l {
            LineModel::Entry(e) => Some(e),
            _ => None,
        };
    let now = lines.take(n as int);
    reveal_with_fuel(Seq::filter_map, 2);
    if n > 0 {
        lemma_chain(lines, (n - 1) as nat);
        assert(now.drop_last() =~= lines.take(n - 1));
        assert(now.last() == lines[n - 1]);
        if let LineModel::Entry(e) = lines[n - 1] {
            let before = lines.take(n - 1).filter_map(f);
            assert(now.filter_map(f) == before + seq![e]);
            assert(before + seq![e] =~= before.push(e));
        }
    } else {
        assert(now.filter_map(f) =~= Seq::empty());
    }
}

/// The response that an entry belongs to: that of its request, or its own where it
/// names none.
pub open spec fn belongs_to(e: ChainModel, key: Seq<char>) -> bool {
    match e.payload {
        PayloadModel::Assistant(m) => key == match m.request_id {
            Some(r) => r,
            None => "uuid:"@ + e.uuid,
        },
        _ => false,
    }
}

proof fn lemma_members(es: Seq<ChainModel>, key: Seq<char>, n: nat)
    requires
        n <= es.len(),
    ensures
        planning::group_members(es, key, n).map_values(|i: int| es[i]) == es.take(n as int).filter(
            |e: ChainModel| belongs_to(e, key),
        ),
    decreases n,
{
    reveal(Seq::filter);
    let mine = |e: ChainModel| belongs_to(e, key);
    let at = |i: int| es[i];
    let now = es.take(n as int);
    if n > 0 {
        lemma_members(es, key, (n - 1) as nat);
        assert(now.drop_last() =~= es.take(n - 1));
        assert(now.last() == es[n - 1]);
        let before = planning::group_members(es, key, (n - 1) as nat);
        assert(before.push(n - 1).map_values(at) =~= before.map_values(at).push(es[n - 1]));
    } else {
        assert(planning::group_members(es, key, 0).map_values(at) =~= now.filter(mine));
    }
}

spec fn spoken_in(b: BlockModel) -> Option<Seq<char>> {
    match b {
        BlockModel::Text(t) => Some(t),
        _ => None,
    }
}

spec fn thought_in(b: BlockModel) -> Option<Seq<char>> {
    match b {
        BlockModel::Thinking(t) => Some(t),
        _ => None,
    }
}

spec fn call_in(b: BlockModel) -> Option<UseModel> {
    match b {
        BlockModel::ToolUse { id, name, input } => Some(UseModel { id, name, input }),
        _ => None,
    }
}

proof fn lemma_blocks(blocks: Seq<BlockModel>, n: nat)
    requires
        n <= blocks.len(),
    ensures
        planning::texts_in(blocks, n) == blocks.take(n as int).filter_map(
            |b: BlockModel| spoken_in(b),
        ),
        planning::thoughts_in(blocks, n) == blocks.take(n as int).filter_map(
            |b: BlockModel| thought_in(b),
        ),
        planning::uses_in(blocks, n) == blocks.take(n as int).filter_map(
            |b: BlockModel| call_in(b),
        ),
    decreases n,
{
    let now = blocks.take(n as int);
    let f = |b: BlockModel| spoken_in(b);
    let g = |b: BlockModel| thought_in(b);
    let h = |b: BlockModel| call_in(b);
    reveal_with_fuel(Seq::filter_map, 2);
    if n > 0 {
        lemma_blocks(blocks, (n - 1) as nat);
        let was = blocks.take(n - 1);
        assert(now.drop_last() =~= was);
        assert(now.last() == blocks[n - 1]);
        match blocks[n - 1] {
            BlockModel::Text(t) => {
                assert(was.filter_map(f) + seq![t] =~= was.filter_map(f).push(t));
            },
            BlockModel::Thinking(t) => {
                assert(was.filter_map(g) + seq![t] =~= was.filter_map(g).push(t));
            },
            BlockModel::ToolUse { id, name, input } => {
                let u = UseModel { id, name, input };
                assert(was.filter_map(h) + seq![u] =~= was.filter_map(h).push(u));
            },
        }
    } else {
        assert(now.filter_map(f) =~= Seq::empty());
        assert(now.filter_map(g) =~= Seq::empty());
        assert(now.filter_map(h) =~= Seq::empty());
    }
}

proof fn lemma_parts(es: Seq<ChainModel>, ps: Seq<int>, n: nat)
    requires
        n <= ps.len(),
    ensures
        ({
            let mine = ps.take(n as int).map_values(|i: int| es[i]);
            &&& planning::group_texts(es, ps, n) == mine.map_values(
                |e: ChainModel| planning::blocks_of(e).filter_map(|b: BlockModel| spoken_in(b)),
            ).flatten()
            &&& planning::group_thoughts(es, ps, n) == mine.map_values(
                |e: ChainModel| planning::blocks_of(e).filter_map(|b: BlockModel| thought_in(b)),
            ).flatten()
            &&& planning::group_uses(es, ps, n) == mine.map_values(
                |e: ChainModel| planning::blocks_of(e).filter_map(|b: BlockModel| call_in(b)),
            ).flatten()
        }),
    decreases n,
{
    broadcast use Seq::lemma_flatten_push;

    let at = |i: int| es[i];
    let mine = ps.take(n as int).map_values(at);
    let f = |e: ChainModel| planning::blocks_of(e).filter_map(|b: BlockModel| spoken_in(b));
    let g = |e: ChainModel| planning::blocks_of(e).filter_map(|b: BlockModel| thought_in(b));
    let h = |e: ChainModel| planning::blocks_of(e).filter_map(|b: BlockModel| call_in(b));
    if n > 0 {
        lemma_parts(es, ps, (n - 1) as nat);
        let was = ps.take(n - 1).map_values(at);
        let e = es[ps[n - 1]];
        let bs = planning::blocks_of(e);
        lemma_blocks(bs, bs.len());
        assert(bs.take(bs.len() as int) =~= bs);
        assert(mine =~= was.push(e));
        assert(mine.map_values(f) =~= was.map_values(f).push(f(e)));
        assert(mine.map_values(g) =~= was.map_values(g).push(g(e)));
        assert(mine.map_values(h) =~= was.map_values(h).push(h(e)));
        assert(planning::uses_of(e) =~= h(e)) by {
            if e.payload !is Assistant {
                reveal_with_fuel(Seq::filter_map, 2);
                assert(h(e) =~= Seq::empty());
            }
        }
    } else {
        assert(mine.map_values(f).flatten() =~= Seq::empty());
        assert(mine.map_values(g).flatten() =~= Seq::empty());
        assert(mine.map_values(h).flatten() =~= Seq::empty());
    }
}

proof fn lemma_model(es: Seq<ChainModel>, ps: Seq<int>, k: int)
    requires
        0 <= k <= ps.len(),
        forall|i: int| 0 <= i < ps.len() ==> (#[trigger] es[ps[i]]).payload is Assistant,
    ensures
        match planning::group_model(es, ps, k) {
            Some(name) => exists|i: int|
                k <= i < ps.len() && (#[trigger] es[ps[i]]).payload->Assistant_0.model == Some(name)
                    && forall|j: int|
                    k <= j < i ==> (#[trigger] es[ps[j]]).payload->Assistant_0.model is None,
            None => forall|i: int|
                k <= i < ps.len() ==> (#[trigger] es[ps[i]]).payload->Assistant_0.model is None,
        },
    decreases ps.len() - k,
{
    if k < ps.len() {
        assert(es[ps[k]].payload is Assistant);
        lemma_model(es, ps, k + 1);
        if es[ps[k]].payload->Assistant_0.model is None {
            if let Some(name) = planning::group_model(es, ps, k + 1) {
                let i = choose|i: int|
                    k + 1 <= i < ps.len() && (#[trigger] es[ps[i]]).payload->Assistant_0.model
                        == Some(name) && forall|j: int|
                        k + 1 <= j < i ==> (#[trigger] es[ps[j]]).payload->Assistant_0.model is None;
                assert(es[ps[i]].payload->Assistant_0.model == Some(name));
            }
        } else {
            let name = es[ps[k]].payload->Assistant_0.model->0;
            assert(es[ps[k]].payload->Assistant_0.model == Some(name));
        }
    }
}

/// What a response says: all texts of all its entries that are not blank, in their
/// order, and likewise all its thoughts; it goes by the model that the first of its
/// entries to name one names.
pub proof fn law_response_says_what_its_entries_say(
    es: Seq<ChainModel>,
    key: Seq<char>,
    input: PlanInput,
)
    ensures
        ({
            let mine = es.filter(
                |e: ChainModel|
                    match e.payload {
                        PayloadModel::Assistant(m) => key == match m.request_id {
                            Some(r) => r,
                            None => "uuid:"@ + e.uuid,
                        },
                        _ => false,
                    },
            );
            let p = planning::planned(es, key, input);
            let texts = mine.map_values(
                |e: ChainModel|
                    e.payload->Assistant_0.blocks.filter_map(
                        |b: BlockModel|
                            match b {
                                BlockModel::Text(t) => Some(t),
                                _ => None,
                            },
                    ),
            ).flatten().filter(|t: Seq<char>| text::trimmed(t).len() > 0);
            let thoughts = mine.map_values(
                |e: ChainModel|
                    e.payload->Assistant_0.blocks.filter_map(
                        |b: BlockModel|
                            match b {
                                BlockModel::Thinking(t) => Some(t),
                                _ => None,
                            },
                    ),
            ).flatten().filter(|t: Seq<char>| text::trimmed(t).len() > 0);
            &&& p.model_response == if texts.len() == 0 {
                None
            } else {
                Some(bounded::bounded(text::joined(texts, "\n\n"@), 262144))
            }
            &&& p.model_cot == if thoughts.len() == 0 {
                None
            } else {
                Some(bounded::bounded(text::joined(thoughts, "\n\n"@), 262144))
            }
            &&& match p.model_name {
                Some(name) => exists|i: int|
                    0 <= i < mine.len() && (#[trigger] mine[i]).payload->Assistant_0.model == Some(
                        name,
                    ) && forall|j: int|
                        0 <= j < i ==> (#[trigger] mine[j]).payload->Assistant_0.model is None,
                None => forall|i: int|
                    0 <= i < mine.len() ==> (#[trigger] mine[i]).payload->Assistant_0.model is None,
            }
        }),
{
    let pick = |e: ChainModel|
        match e.payload {
            PayloadModel::Assistant(m) => key == match m.request_id {
                Some(r) => r,
                None => "uuid:"@ + e.uuid,
            },
            _ => false,
        };
    let mine = es.filter(pick);
    assert(pick =~= (|e: ChainModel| belongs_to(e, key)));
    let ps = planning::group_members(es, key, es.len());
    lemma_members(es, key, es.len());
    assert(es.take(es.len() as int) =~= es);
    assert(ps.map_values(|i: int| es[i]) == mine);
    lemma_parts(es, ps, ps.len());
    assert(ps.take(ps.len() as int) =~= ps);
    assert forall|i: int| 0 <= i < mine.len() implies (#[trigger] mine[i]).payload is Assistant && es[ps[i]] == mine[i] by {
        planning::lemma_members_keyed(es, key, es.len());
        assert(planning::response_key(es[ps[i]]) == Some(key));
        assert(mine[i] == es[ps[i]]);
    }
    let text = |b: BlockModel|
        match b {
            BlockModel::Text(t) => Some(t),
            _ => None,
        };
    let thought = |b: BlockModel|
        match b {
            BlockModel::Thinking(t) => Some(t),
            _ => None,
        };
    assert(text =~= (|b: BlockModel| spoken_in(b)));
    assert(thought =~= (|b: BlockModel| thought_in(b)));
    assert(mine.map_values(|e: ChainModel| e.payload->Assistant_0.blocks.filter_map(text))
        =~= mine.map_values(
        |e: ChainModel| planning::blocks_of(e).filter_map(|b: BlockModel| spoken_in(b)),
    ));
    assert(mine.map_values(|e: ChainModel| e.payload->Assistant_0.blocks.filter_map(thought))
        =~= mine.map_values(
        |e: ChainModel| planning::blocks_of(e).filter_map(|b: BlockModel| thought_in(b)),
    ));
    assert forall|i: int| 0 <= i < ps.len() implies (#[trigger] es[ps[i]]).payload is Assistant by {
        assert(mine[i] == es[ps[i]]);
    }
    lemma_model(es, ps, 0);
    let p = planning::planned(es, key, input);
    match p.model_name {
        Some(name) => {
            let i = choose|i: int|
                0 <= i < ps.len() && (#[trigger] es[ps[i]]).payload->Assistant_0.model == Some(name)
                    && forall|j: int|
                    0 <= j < i ==> (#[trigger] es[ps[j]]).payload->Assistant_0.model is None;
            assert(mine[i] == es[ps[i]]);
            assert forall|j: int| 0 <= j < i implies (#[trigger] mine[j]).payload->Assistant_0.model is None by {
                assert(mine[j] == es[ps[j]]);
            }
        },
        None => {
            assert forall|i: int| 0 <= i < mine.len() implies (#[trigger] mine[i]).payload->Assistant_0.model is None by {
                assert(mine[i] == es[ps[i]]);
            }
        },
    }
}

/// A response stands at its first entry: it has that entry's moment, or that of
/// planning where the entry has none, and begins at that entry's byte. It goes by the
/// session and its key.
pub proof fn law_response_stands_at_its_first_entry(
    es: Seq<ChainModel>,
    key: Seq<char>,
    input: PlanInput,
    i: int,
)
    requires
        0 <= i < es.len(),
        belongs_to(es[i], key),
        forall|j: int| 0 <= j < i ==> !belongs_to(#[trigger] es[j], key),
    ensures
        ({
            let p = planning::planned(es, key, input);
            &&& p.first_offset == es[i].offset
            &&& p.timestamp == match es[i].timestamp {
                Some(t) => t,
                None => input.now,
            }
            &&& p.response_key == key
            &&& p.id == planning::response_id(input.harness@, input.session_id@, key)
            &&& forall|k: int|
                0 <= k < p.tool_executions.len() ==> (#[trigger] p.tool_executions[k]).interaction_id
                    == p.id
            &&& forall|k: int|
                0 <= k < p.context_items.len() ==> (#[trigger] p.context_items[k]).interaction_id
                    == p.id
        }),
{
    let ps = planning::group_members(es, key, es.len());
    planning::lemma_members_keyed(es, key, es.len());
    planning::lemma_members_valid(es, key, es.len());
    lemma_first(es, key, es.len(), i);
    let us = planning::group_uses(es, ps, ps.len());
    let rs = planning::all_results(es, es.len());
    let id = planning::response_id(input.harness@, input.session_id@, key);
    lemma_executions(us, rs, id, us.len());
    lemma_contexts(
        us,
        input.worktree_root@,
        planning::alias_models(input.path_aliases@),
        id,
        us.len(),
    );
}

proof fn lemma_first(es: Seq<ChainModel>, key: Seq<char>, n: nat, i: int)
    requires
        0 <= i < n <= es.len(),
        belongs_to(es[i], key),
        forall|j: int| 0 <= j < i ==> !belongs_to(#[trigger] es[j], key),
    ensures
        planning::group_members(es, key, n).len() > 0,
        planning::group_members(es, key, n)[0] == i,
    decreases n,
{
    if n - 1 > i {
        lemma_first(es, key, (n - 1) as nat, i);
    } else {
        lemma_none(es, key, i as nat);
    }
}

proof fn lemma_none(es: Seq<ChainModel>, key: Seq<char>, n: nat)
    requires
        n <= es.len(),
        forall|j: int| 0 <= j < n ==> !belongs_to(#[trigger] es[j], key),
    ensures
        planning::group_members(es, key, n).len() == 0,
    decreases n,
{
    if n > 0 {
        lemma_none(es, key, (n - 1) as nat);
        assert(!belongs_to(es[n - 1], key));
    }
}

proof fn lemma_executions(us: Seq<UseModel>, rs: Seq<ResultModel>, id: InteractionId, n: nat)
    requires
        n <= us.len(),
    ensures
        ({
            let made = planning::executions(us, rs, id, n).0;
            &&& made.len() == n
            &&& forall|i: int|
                0 <= i < n ==> {
                    &&& (#[trigger] made[i]).id is None
                    &&& made[i].interaction_id == id
                    &&& made[i].tool_name == us[i].name
                    &&& made[i].tool_protocol == if text::has_prefix(us[i].name, "mcp__"@) {
                        "mcp"@
                    } else {
                        "native"@
                    }
                    &&& made[i].status == (if planning::result_for(rs, us[i].id) matches Some(r)
                        && !r.is_error {
                        ToolStatus::Success
                    } else {
                        ToolStatus::Failure
                    })
                    &&& made[i].arguments == planning::arguments_within(
                        us[i].input,
                        planning::executions(us, rs, id, i as nat).1,
                    ).0
                }
        }),
    decreases n,
{
    if n > 0 {
        lemma_executions(us, rs, id, (n - 1) as nat);
        let before = planning::executions(us, rs, id, (n - 1) as nat).0;
        let made = planning::executions(us, rs, id, n).0;
        assert forall|i: int| 0 <= i < n - 1 implies made[i] == before[i] by {}
    }
}

proof fn lemma_budget(us: Seq<UseModel>, rs: Seq<ResultModel>, id: InteractionId, n: nat)
    requires
        n <= us.len(),
    ensures
        planning::executions(us, rs, id, n).1 >= 2097152 - 65536 * n,
        planning::executions(us, rs, id, n).1 <= 2097152,
    decreases n,
{
    if n > 0 {
        lemma_budget(us, rs, id, (n - 1) as nat);
    }
}

/// Every tool call of a response is kept, in its order: under the name of the tool,
/// as a success exactly where the first result for it in the window is no error, and
/// with its arguments wherever they fit.
pub proof fn law_every_tool_call_is_kept(es: Seq<ChainModel>, key: Seq<char>, input: PlanInput)
    ensures
        ({
            let mine = es.filter(|e: ChainModel| belongs_to(e, key));
            let p = planning::planned(es, key, input);
            let calls = mine.map_values(
                |e: ChainModel|
                    e.payload->Assistant_0.blocks.filter_map(
                        |b: BlockModel|
                            match b {
                                BlockModel::ToolUse { id, name, input } => Some(
                                    UseModel { id, name, input },
                                ),
                                _ => None,
                            },
                    ),
            ).flatten();
            let results = es.map_values(
                |e: ChainModel|
                    match e.payload {
                        PayloadModel::User(m) => m.tool_results,
                        _ => Seq::empty(),
                    },
            ).flatten();
            &&& p.tool_executions.len() == calls.len()
            &&& forall|i: int|
                0 <= i < calls.len() ==> {
                    let t = #[trigger] p.tool_executions[i];
                    &&& t.tool_name == calls[i].name
                    &&& t.tool_protocol == if text::has_prefix(calls[i].name, "mcp__"@) {
                        "mcp"@
                    } else {
                        "native"@
                    }
                    &&& t.status == ToolStatus::Success || t.status == ToolStatus::Failure
                    &&& t.status == ToolStatus::Success <==> exists|r: int|
                        0 <= r < results.len() && (#[trigger] results[r]).tool_use_id == calls[i].id
                            && !results[r].is_error && forall|q: int|
                            0 <= q < r ==> (#[trigger] results[q]).tool_use_id != calls[i].id
                    &&& i < 31 && text::byte_len(
                        json::printed_json(planning::bounded_strings(calls[i].input, 16384)),
                    ) <= 65536 ==> t.arguments == json::printed_json(
                        planning::bounded_strings(calls[i].input, 16384),
                    )
                }
        }),
{
    let pick = |e: ChainModel| belongs_to(e, key);
    let mine = es.filter(pick);
    let ps = planning::group_members(es, key, es.len());
    lemma_members(es, key, es.len());
    assert(es.take(es.len() as int) =~= es);
    lemma_parts(es, ps, ps.len());
    assert(ps.take(ps.len() as int) =~= ps);
    let call = |b: BlockModel|
        match b {
            BlockModel::ToolUse { id, name, input } => Some(UseModel { id, name, input }),
            _ => None,
        };
    assert(call =~= (|b: BlockModel| call_in(b)));
    let at = |i: int| es[i];
    assert(ps.map_values(at) == mine);
    assert forall|i: int| 0 <= i < mine.len() implies (#[trigger] mine[i]).payload is Assistant by {
        planning::lemma_members_keyed(es, key, es.len());
        assert(planning::response_key(es[ps[i]]) == Some(key));
        assert(mine[i] == es[ps[i]]);
    }
    let direct = mine.map_values(|e: ChainModel| e.payload->Assistant_0.blocks.filter_map(call));
    assert(direct =~= mine.map_values(
        |e: ChainModel| planning::blocks_of(e).filter_map(|b: BlockModel| call_in(b)),
    ));
    let us = planning::group_uses(es, ps, ps.len());
    let rs = planning::all_results(es, es.len());
    let id = planning::response_id(input.harness@, input.session_id@, key);
    lemma_results(es, es.len());
    lemma_executions(us, rs, id, us.len());
    let p = planning::planned(es, key, input);
    assert forall|i: int| 0 <= i < us.len() implies {
        let t = #[trigger] p.tool_executions[i];
        &&& t.status == ToolStatus::Success <==> exists|r: int|
            0 <= r < rs.len() && (#[trigger] rs[r]).tool_use_id == us[i].id && !rs[r].is_error
                && forall|q: int| 0 <= q < r ==> (#[trigger] rs[q]).tool_use_id != us[i].id
        &&& i < 31 && text::byte_len(
            json::printed_json(planning::bounded_strings(us[i].input, 16384)),
        ) <= 65536 ==> t.arguments == json::printed_json(
            planning::bounded_strings(us[i].input, 16384),
        )
    } by {
        lemma_result_for(rs, us[i].id);
        lemma_budget(us, rs, id, i as nat);
    }
}

proof fn lemma_results(es: Seq<ChainModel>, n: nat)
    requires
        n <= es.len(),
    ensures
        planning::all_results(es, n) == es.take(n as int).map_values(
            |e: ChainModel|
                match e.payload {
                    PayloadModel::User(m) => m.tool_results,
                    _ => Seq::empty(),
                },
        ).flatten(),
        es.take(es.len() as int) == es,
    decreases n,
{
    broadcast use Seq::lemma_flatten_push;

    let f = |e: ChainModel|
        match e.payload {
            PayloadModel::User(m) => m.tool_results,
            _ => Seq::empty(),
        };
    assert(es.take(es.len() as int) =~= es);
    let now = es.take(n as int);
    if n > 0 {
        lemma_results(es, (n - 1) as nat);
        let was = es.take(n - 1);
        assert(now.map_values(f) =~= was.map_values(f).push(f(es[n - 1])));
    } else {
        assert(now.map_values(f).flatten() =~= Seq::empty());
    }
}

proof fn lemma_result_for(rs: Seq<ResultModel>, id: Seq<char>)
    ensures
        (planning::result_for(rs, id) matches Some(x) && !x.is_error) <==> exists|r: int|
            0 <= r < rs.len() && (#[trigger] rs[r]).tool_use_id == id && !rs[r].is_error && forall|
                q: int,
            |
                0 <= q < r ==> (#[trigger] rs[q]).tool_use_id != id,
{
    let ids = planning::result_ids(rs);
    lemma_first_position(ids, id, 0);
    match textset::position_of(ids, id, 0) {
        Some(i) => {
            assert(ids[i] == rs[i].tool_use_id);
            assert forall|q: int| 0 <= q < i implies (#[trigger] rs[q]).tool_use_id != id by {
                assert(ids[q] == rs[q].tool_use_id);
            }
            if exists|r: int|
                0 <= r < rs.len() && (#[trigger] rs[r]).tool_use_id == id && !rs[r].is_error
                    && forall|q: int| 0 <= q < r ==> (#[trigger] rs[q]).tool_use_id != id {
                let r = choose|r: int|
                    0 <= r < rs.len() && (#[trigger] rs[r]).tool_use_id == id && !rs[r].is_error
                        && forall|q: int| 0 <= q < r ==> (#[trigger] rs[q]).tool_use_id != id;
                if i < r {
                    assert(rs[i].tool_use_id != id);
                }
                assert(i == r);
            }
            if !rs[i].is_error {
                assert(rs[i].tool_use_id == id);
            }
        },
        None => {
            assert forall|r: int| 0 <= r < rs.len() implies (#[trigger] rs[r]).tool_use_id != id by {
                assert(ids[r] == rs[r].tool_use_id);
            }
        },
    }
}

proof fn lemma_first_position(list: Seq<Seq<char>>, x: Seq<char>, k: int)
    requires
        0 <= k <= list.len(),
    ensures
        match textset::position_of(list, x, k) {
            Some(i) => k <= i < list.len() && list[i] == x && forall|q: int|
                k <= q < i ==> #[trigger] list[q] != x,
            None => forall|i: int| k <= i < list.len() ==> #[trigger] list[i] != x,
        },
    decreases list.len() - k,
{
    if k < list.len() && list[k] != x {
        lemma_first_position(list, x, k + 1);
    }
}

/// Arguments in which every text is short enough stay as they are.
pub proof fn law_short_arguments_stay(a: JsonModel, max: int)
    requires
        texts_fit(a, max),
    ensures
        planning::bounded_strings(a, max) == a,
    decreases a,
{
    match a {
        JsonModel::Text(t) => {},
        JsonModel::List(xs) => {
            assert forall|i: int| 0 <= i < xs.len() implies planning::bounded_strings(xs[i], max)
                == xs[i] by {
                assert(texts_fit(xs[i], max));
                law_short_arguments_stay(xs[i], max);
            }
            assert(planning::bounded_strings(a, max)->List_0 =~= xs);
        },
        JsonModel::Object(xs) => {
            assert forall|i: int| 0 <= i < xs.len() implies planning::bounded_strings(xs[i].1, max)
                == xs[i].1 by {
                assert(texts_fit(xs[i].1, max));
                law_short_arguments_stay(xs[i].1, max);
            }
            assert(planning::bounded_strings(a, max)->Object_0 =~= xs);
        },
        _ => {},
    }
}

/// Every text of a document has at most so many bytes.
pub open spec fn texts_fit(a: JsonModel, max: int) -> bool
    decreases a,
{
    match a {
        JsonModel::Text(t) => text::byte_len(t) <= max,
        JsonModel::List(xs) => forall|i: int| 0 <= i < xs.len() ==> texts_fit(#[trigger] xs[i], max),
        JsonModel::Object(xs) => forall|i: int|
            0 <= i < xs.len() ==> texts_fit((#[trigger] xs[i]).1, max),
        _ => true,
    }
}

/// A context item comes from a tool call, and stands in the response only once.
proof fn lemma_contexts(
    us: Seq<UseModel>,
    root: Seq<char>,
    aliases: Seq<(Seq<char>, Seq<char>)>,
    id: InteractionId,
    n: nat,
)
    requires
        n <= us.len(),
    ensures
        ({
            let made = planning::contexts(us, root, aliases, id, n);
            &&& forall|k: int|
                0 <= k < made.len() ==> (#[trigger] made[k]).interaction_id == id && exists|i: int|
                    0 <= i < n && planning::context_of(
                        (#[trigger] us[i]).name,
                        us[i].input,
                        root,
                        aliases,
                        id,
                    ) == Some(made[k])
            &&& forall|i: int|
                0 <= i < n ==> (planning::context_of(
                    (#[trigger] us[i]).name,
                    us[i].input,
                    root,
                    aliases,
                    id,
                ) matches Some(item) ==> exists|k: int|
                    0 <= k < made.len() && (#[trigger] made[k]).file_path == item.file_path
                        && made[k].start_line == item.start_line && made[k].end_line
                        == item.end_line)
            &&& forall|j: int, k: int|
                0 <= j < k < made.len() ==> !((#[trigger] made[j]).file_path == (
                #[trigger] made[k]).file_path && made[j].start_line == made[k].start_line
                    && made[j].end_line == made[k].end_line)
        }),
    decreases n,
{
    if n > 0 {
        lemma_contexts(us, root, aliases, id, (n - 1) as nat);
        let before = planning::contexts(us, root, aliases, id, (n - 1) as nat);
        let made = planning::contexts(us, root, aliases, id, n);
        let u = us[n - 1];
        let found = planning::context_of(u.name, u.input, root, aliases, id);
        assert forall|k: int| 0 <= k < before.len() implies made[k] == before[k] by {}
        assert forall|k: int| 0 <= k < made.len() implies (#[trigger] made[k]).interaction_id == id
            && exists|i: int|
            0 <= i < n && planning::context_of(
                (#[trigger] us[i]).name,
                us[i].input,
                root,
                aliases,
                id,
            ) == Some(made[k]) by {
            if k < before.len() {
                let i = choose|i: int|
                    0 <= i < n - 1 && planning::context_of(
                        (#[trigger] us[i]).name,
                        us[i].input,
                        root,
                        aliases,
                        id,
                    ) == Some(before[k]);
                assert(planning::context_of(us[i].name, us[i].input, root, aliases, id) == Some(
                    made[k],
                ));
            } else {
                assert(planning::context_of(us[n - 1].name, us[n - 1].input, root, aliases, id)
                    == Some(made[k]));
            }
        }
        assert forall|i: int| 0 <= i < n implies (planning::context_of(
            (#[trigger] us[i]).name,
            us[i].input,
            root,
            aliases,
            id,
        ) matches Some(item) ==> exists|k: int|
            0 <= k < made.len() && (#[trigger] made[k]).file_path == item.file_path
                && made[k].start_line == item.start_line && made[k].end_line == item.end_line) by {
            if let Some(item) = planning::context_of(us[i].name, us[i].input, root, aliases, id) {
                if i < n - 1 {
                    let k = choose|k: int|
                        0 <= k < before.len() && (#[trigger] before[k]).file_path == item.file_path
                            && before[k].start_line == item.start_line && before[k].end_line
                            == item.end_line;
                    assert(made[k].file_path == item.file_path);
                } else if exists|k: int|
                    0 <= k < before.len() && planning::same_place(#[trigger] before[k], item) {
                    let k = choose|k: int|
                        0 <= k < before.len() && planning::same_place(#[trigger] before[k], item);
                    assert(made[k].file_path == item.file_path);
                } else {
                    assert(made[made.len() - 1].file_path == item.file_path);
                }
            }
        }
    }
}

/// The files that a response names are those that its calls of the reading and
/// writing tools name below the worktree, each place once: for every such call there
/// is a context item of that path and those lines, and every context item comes from
/// such a call.
pub proof fn law_context_is_what_the_tools_name(
    es: Seq<ChainModel>,
    key: Seq<char>,
    input: PlanInput,
)
    ensures
        ({
            let ps = planning::group_members(es, key, es.len());
            let us = planning::group_uses(es, ps, ps.len());
            let p = planning::planned(es, key, input);
            let root = input.worktree_root@;
            let aliases = planning::alias_models(input.path_aliases@);
            let names = |u: UseModel, path: Seq<char>|
                {
                    let key = if u.name == "NotebookEdit"@ {
                        "notebook_path"@
                    } else {
                        "file_path"@
                    };
                    &&& u.name == "Read"@ || u.name == "Edit"@ || u.name == "Write"@ || u.name
                        == "MultiEdit"@ || u.name == "NotebookEdit"@
                    &&& json::member(u.input, key) matches Some(JsonModel::Text(raw))
                        && planning::relative_path(raw, root, aliases) == Some(path)
                };
            &&& forall|i: int, path: Seq<char>|
                0 <= i < us.len() && #[trigger] names(us[i], path) ==> exists|k: int|
                    0 <= k < p.context_items.len() && (#[trigger] p.context_items[k]).file_path
                        == path && p.context_items[k].start_line == planning::lines_read(
                        us[i].name,
                        us[i].input,
                    ).0 && p.context_items[k].end_line == planning::lines_read(
                        us[i].name,
                        us[i].input,
                    ).1
            &&& forall|k: int|
                0 <= k < p.context_items.len() ==> exists|i: int|
                    0 <= i < us.len() && #[trigger] names(us[i], p.context_items[k].file_path) && (
                    #[trigger] p.context_items[k]).start_line == planning::lines_read(
                        us[i].name,
                        us[i].input,
                    ).0
            &&& forall|j: int, k: int|
                0 <= j < k < p.context_items.len() ==> !((#[trigger] p.context_items[j]).file_path
                    == (#[trigger] p.context_items[k]).file_path && p.context_items[j].start_line
                    == p.context_items[k].start_line && p.context_items[j].end_line
                    == p.context_items[k].end_line)
        }),
{
    let ps = planning::group_members(es, key, es.len());
    let us = planning::group_uses(es, ps, ps.len());
    let p = planning::planned(es, key, input);
    let root = input.worktree_root@;
    let aliases = planning::alias_models(input.path_aliases@);
    let id = planning::response_id(input.harness@, input.session_id@, key);
    lemma_contexts(us, root, aliases, id, us.len());
    let names = |u: UseModel, path: Seq<char>|
        {
            let key = if u.name == "NotebookEdit"@ {
                "notebook_path"@
            } else {
                "file_path"@
            };
            &&& u.name == "Read"@ || u.name == "Edit"@ || u.name == "Write"@ || u.name
                == "MultiEdit"@ || u.name == "NotebookEdit"@
            &&& json::member(u.input, key) matches Some(JsonModel::Text(raw))
                && planning::relative_path(raw, root, aliases) == Some(path)
        };
    reveal_strlit("Read");
    reveal_strlit("Edit");
    reveal_strlit("Write");
    reveal_strlit("MultiEdit");
    reveal_strlit("NotebookEdit");
    assert forall|u: UseModel, path: Seq<char>| #[trigger] names(u, path) <==> (
    planning::context_of(u.name, u.input, root, aliases, id) matches Some(item) && item.file_path
        == path) by {
        assert("NotebookEdit"@.len() == 12);
        assert("Read"@.len() == 4 && "Edit"@.len() == 4 && "Write"@.len() == 5 && "MultiEdit"@.len()
            == 9);
    }
    assert forall|i: int, path: Seq<char>|
        0 <= i < us.len() && #[trigger] names(us[i], path) implies exists|k: int|
        0 <= k < p.context_items.len() && (#[trigger] p.context_items[k]).file_path == path
            && p.context_items[k].start_line == planning::lines_read(us[i].name, us[i].input).0
            && p.context_items[k].end_line == planning::lines_read(us[i].name, us[i].input).1 by {
        assert(planning::context_of(us[i].name, us[i].input, root, aliases, id) is Some);
    }
    assert forall|k: int| 0 <= k < p.context_items.len() implies exists|i: int|
        0 <= i < us.len() && #[trigger] names(us[i], p.context_items[k].file_path) && (
        #[trigger] p.context_items[k]).start_line == planning::lines_read(
            us[i].name,
            us[i].input,
        ).0 by {
        let i = choose|i: int|
            0 <= i < us.len() && planning::context_of(
                (#[trigger] us[i]).name,
                us[i].input,
                root,
                aliases,
                id,
            ) == Some(p.context_items[k]);
        assert(names(us[i], p.context_items[k].file_path));
    }
}

/// A way back from an entry: entries each of which is the first with the name that
/// the one before it gives as its parent, none of them an assistant's.
pub open spec fn leads_back(es: Seq<ChainModel>, from: Option<Seq<char>>, way: Seq<int>) -> bool {
    &&& forall|i: int|
        0 <= i < way.len() ==> {
            &&& 0 <= #[trigger] way[i] < es.len()
            &&& es[way[i]].payload !is Assistant
            &&& Some(es[way[i]].uuid) == if i == 0 {
                from
            } else {
                es[way[i - 1]].parent_uuid
            }
            &&& forall|q: int| 0 <= q < way[i] ==> (#[trigger] es[q]).uuid != es[way[i]].uuid
        }
}

proof fn lemma_walk(
    es: Seq<ChainModel>,
    from: Option<Seq<char>>,
    way: Seq<int>,
    end: Option<int>,
    fuel: nat,
    found: Seq<int>,
)
    requires
        leads_back(es, from, way),
        way.len() < fuel,
        ({
            let last = if way.len() == 0 {
                from
            } else {
                es[way.last()].parent_uuid
            };
            match end {
                Some(a) => {
                    &&& 0 <= a < es.len()
                    &&& es[a].payload is Assistant
                    &&& last == Some(es[a].uuid)
                    &&& forall|q: int| 0 <= q < a ==> (#[trigger] es[q]).uuid != es[a].uuid
                },
                None => last is None || forall|q: int|
                    0 <= q < es.len() ==> Some((#[trigger] es[q]).uuid) != last,
            }
        }),
    ensures
        planning::walk(es, from, fuel, found) == (
            found + way.filter(|i: int| es[i].payload is User),
            end,
        ),
    decreases way.len(),
{
    let user = |i: int| es[i].payload is User;
    let ids = planning::entry_ids(es);
    if way.len() == 0 {
        reveal(Seq::filter);
        assert(found + way.filter(user) =~= found);
        if let Some(uuid) = from {
            lemma_first_position(ids, uuid, 0);
            match end {
                Some(a) => {
                    assert(ids[a] == es[a].uuid);
                    if let Some(q) = textset::position_of(ids, uuid, 0) {
                        assert(ids[q] == es[q].uuid);
                        if q < a {
                            assert(es[q].uuid != es[a].uuid);
                        }
                        if a < q {
                            assert(ids[a] != uuid);
                        }
                    }
                },
                None => {
                    if let Some(q) = textset::position_of(ids, uuid, 0) {
                        assert(ids[q] == es[q].uuid);
                    }
                },
            }
        }
    } else {
        let first = way[0];
        let uuid = es[first].uuid;
        lemma_first_position(ids, uuid, 0);
        assert(ids[first] == uuid);
        let q = textset::position_of(ids, uuid, 0)->0;
        assert(ids[q] == es[q].uuid);
        if q < first {
            assert(es[q].uuid != es[first].uuid);
        }
        if first < q {
            assert(ids[first] != uuid);
        }
        assert(q == first);
        let rest = way.drop_first();
        assert forall|i: int| 0 <= i < rest.len() implies {
            &&& 0 <= #[trigger] rest[i] < es.len()
            &&& es[rest[i]].payload !is Assistant
            &&& Some(es[rest[i]].uuid) == if i == 0 {
                es[first].parent_uuid
            } else {
                es[rest[i - 1]].parent_uuid
            }
            &&& forall|q: int| 0 <= q < rest[i] ==> (#[trigger] es[q]).uuid != es[rest[i]].uuid
        } by {
            assert(rest[i] == way[i + 1]);
            if i > 0 {
                assert(rest[i - 1] == way[i]);
            }
        }
        assert(way =~= seq![first] + rest);
        let next = if user(first) {
            found.push(first)
        } else {
            found
        };
        if rest.len() > 0 {
            assert(rest.last() == way.last());
        }
        lemma_walk(es, es[first].parent_uuid, rest, end, (fuel - 1) as nat, next);
        lemma_filter_first(way, user);
        assert(next + rest.filter(user) =~= found + way.filter(user));
    }
}

proof fn lemma_filter_first(s: Seq<int>, keep: spec_fn(int) -> bool)
    requires
        s.len() > 0,
    ensures
        s.filter(keep) == if keep(s[0]) {
            seq![s[0]] + s.drop_first().filter(keep)
        } else {
            s.drop_first().filter(keep)
        },
    decreases s.len(),
{
    reveal(Seq::filter);
    if s.len() == 1 {
        assert(s.drop_last() =~= Seq::empty());
        assert(s.drop_first() =~= Seq::empty());
        assert(s.filter(keep) =~= if keep(s[0]) {
            seq![s[0]] + s.drop_first().filter(keep)
        } else {
            s.drop_first().filter(keep)
        });
    } else {
        lemma_filter_first(s.drop_last(), keep);
        assert(s.drop_first().drop_last() =~= s.drop_last().drop_first());
        assert(s.drop_first().last() == s.last());
        assert(s.filter(keep) =~= if keep(s[0]) {
            seq![s[0]] + s.drop_first().filter(keep)
        } else {
            s.drop_first().filter(keep)
        });
    }
}

/// The entries that a response answers, oldest first: those between it and the
/// response before. Each shows its texts and then the results of the tools that it
/// carries; a human wrote the prompt where one of them has a text that is neither a
/// note nor a summary; and the response follows the one at the end of the way back.
pub proof fn law_prompt_is_what_stands_between(
    es: Seq<ChainModel>,
    key: Seq<char>,
    input: PlanInput,
    i: int,
    way: Seq<int>,
    end: Option<int>,
)
    requires
        0 <= i < es.len(),
        belongs_to(es[i], key),
        forall|j: int| 0 <= j < i ==> !belongs_to(#[trigger] es[j], key),
        leads_back(es, es[i].parent_uuid, way),
        way.len() <= es.len(),
        ({
            let last = if way.len() == 0 {
                es[i].parent_uuid
            } else {
                es[way.last()].parent_uuid
            };
            match end {
                Some(a) => {
                    &&& 0 <= a < es.len()
                    &&& es[a].payload is Assistant
                    &&& last == Some(es[a].uuid)
                    &&& forall|q: int| 0 <= q < a ==> (#[trigger] es[q]).uuid != es[a].uuid
                },
                None => last is None || forall|q: int|
                    0 <= q < es.len() ==> Some((#[trigger] es[q]).uuid) != last,
            }
        }),
    ensures
        ({
            let p = planning::planned(es, key, input);
            let calls = es.map_values(
                |e: ChainModel|
                    match e.payload {
                        PayloadModel::Assistant(m) => m.blocks.filter_map(
                            |b: BlockModel|
                                match b {
                                    BlockModel::ToolUse { id, name, input } => Some(
                                        UseModel { id, name, input },
                                    ),
                                    _ => None,
                                },
                        ),
                        _ => Seq::empty(),
                    },
            ).flatten();
            let parts = way.filter(|j: int| es[j].payload is User).reverse().map_values(
                |j: int|
                    {
                        let m = es[j].payload->User_0;
                        m.texts.map_values(
                            |t: Seq<char>|
                                if m.compact_summary {
                                    "[compaction summary]\n"@ + bounded::bounded(t, 65536)
                                } else if m.meta {
                                    "[meta] "@ + bounded::bounded(t, 65536)
                                } else {
                                    bounded::bounded(t, 65536)
                                },
                        ) + m.tool_results.map_values(
                            |r: ResultModel|
                                "[tool_result "@ + planning::tool_named(calls, r.tool_use_id) + (
                                if r.is_error {
                                    " error"@
                                } else {
                                    ""@
                                }) + "] "@ + bounded::bounded_ends(r.content, 6144, 2048),
                        )
                    },
            ).flatten();
            &&& p.user_prompt == if parts.len() == 0 {
                "[no stimulus recorded]"@
            } else {
                bounded::bounded(text::joined(parts, "\n\n"@), 65536)
            }
            &&& p.author == Author::Human || p.author == Author::System
            &&& p.author == Author::Human <==> exists|k: int|
                0 <= k < way.len() && {
                    let e = es[#[trigger] way[k]];
                    e.payload is User && !e.payload->User_0.meta
                        && !e.payload->User_0.compact_summary && e.payload->User_0.texts.len() > 0
                }
            &&& p.parent_id == match end {
                Some(a) => Some(
                    planning::response_id(
                        input.harness@,
                        input.session_id@,
                        match es[a].payload->Assistant_0.request_id {
                            Some(r) => r,
                            None => "uuid:"@ + es[a].uuid,
                        },
                    ),
                ),
                None => None,
            }
        }),
{
    let ps = planning::group_members(es, key, es.len());
    lemma_first(es, key, es.len(), i);
    lemma_walk(es, es[i].parent_uuid, way, end, es.len() + 1, Seq::empty());
    let user = |j: int| es[j].payload is User;
    let found = way.filter(user);
    assert(Seq::<int>::empty() + found =~= found);
    let us = planning::all_uses(es, es.len());
    lemma_calls(es, es.len());
    lemma_filtered(way, user);
    lemma_stimuli(es, us, found, found.len());
    assert(found.reverse().take(found.len() as int) =~= found.reverse());
    let ss = planning::stimuli(es, found, found.len());
    lemma_some_human(es, found, found.len());
    let call = |b: BlockModel|
        match b {
            BlockModel::ToolUse { id, name, input } => Some(UseModel { id, name, input }),
            _ => None,
        };
    assert(call =~= (|b: BlockModel| call_in(b)));
    let of = |e: ChainModel|
        match e.payload {
            PayloadModel::Assistant(m) => m.blocks.filter_map(call),
            _ => Seq::<UseModel>::empty(),
        };
    assert(es.map_values(of) =~= es.map_values(
        |e: ChainModel|
            match e.payload {
                PayloadModel::Assistant(m) => m.blocks.filter_map(|b: BlockModel| call_in(b)),
                _ => Seq::<UseModel>::empty(),
            },
    ));
    let p = planning::planned(es, key, input);
    let shown = found.reverse().map_values(|j: int| shown_parts(es[j].payload->User_0, us));
    let parts = found.reverse().map_values(
        |j: int|
            {
                let m = es[j].payload->User_0;
                m.texts.map_values(
                    |t: Seq<char>|
                        if m.compact_summary {
                            "[compaction summary]\n"@ + bounded::bounded(t, 65536)
                        } else if m.meta {
                            "[meta] "@ + bounded::bounded(t, 65536)
                        } else {
                            bounded::bounded(t, 65536)
                        },
                ) + m.tool_results.map_values(
                    |r: ResultModel|
                        "[tool_result "@ + planning::tool_named(us, r.tool_use_id) + (
                        if r.is_error {
                            " error"@
                        } else {
                            ""@
                        }) + "] "@ + bounded::bounded_ends(r.content, 6144, 2048),
                )
            },
    );
    assert(shown =~= parts) by {
        assert forall|j: int| 0 <= j < shown.len() implies shown[j] == parts[j] by {
            assert(shown[j] =~= parts[j]);
        }
    }
    assert(p.author == Author::Human <==> exists|k: int|
        0 <= k < way.len() && {
            let e = es[#[trigger] way[k]];
            e.payload is User && !e.payload->User_0.meta && !e.payload->User_0.compact_summary
                && e.payload->User_0.texts.len() > 0
        }) by {
        if p.author == Author::Human {
            let k = choose|k: int| 0 <= k < found.len() && writes(es[#[trigger] found[k]]);
            let w = choose|w: int| 0 <= w < way.len() && #[trigger] way[w] == found[k];
            assert(writes(es[way[w]]));
        }
        if exists|k: int|
            0 <= k < way.len() && {
                let e = es[#[trigger] way[k]];
                e.payload is User && !e.payload->User_0.meta && !e.payload->User_0.compact_summary
                    && e.payload->User_0.texts.len() > 0
            } {
            let k = choose|k: int|
                0 <= k < way.len() && {
                    let e = es[#[trigger] way[k]];
                    e.payload is User && !e.payload->User_0.meta
                        && !e.payload->User_0.compact_summary && e.payload->User_0.texts.len() > 0
                };
            assert(way.contains(way[k]));
            assert(user(way[k]));
            assert(found.contains(way[k]));
            let f = choose|f: int| 0 <= f < found.len() && #[trigger] found[f] == way[k];
            assert(writes(es[found[f]]));
        }
    }
}

spec fn writes(e: ChainModel) -> bool {
    e.payload is User && !e.payload->User_0.meta && !e.payload->User_0.compact_summary
        && e.payload->User_0.texts.len() > 0
}

spec fn shown_parts(m: UserModel, us: Seq<UseModel>) -> Seq<Seq<char>> {
    m.texts.map_values(
        |t: Seq<char>|
            if m.compact_summary {
                "[compaction summary]\n"@ + bounded::bounded(t, 65536)
            } else if m.meta {
                "[meta] "@ + bounded::bounded(t, 65536)
            } else {
                bounded::bounded(t, 65536)
            },
    ) + m.tool_results.map_values(
        |r: ResultModel|
            "[tool_result "@ + planning::tool_named(us, r.tool_use_id) + (if r.is_error {
                " error"@
            } else {
                ""@
            }) + "] "@ + bounded::bounded_ends(r.content, 6144, 2048),
    )
}

proof fn lemma_filtered(way: Seq<int>, keep: spec_fn(int) -> bool)
    ensures
        forall|k: int|
            0 <= k < way.filter(keep).len() ==> keep(#[trigger] way.filter(keep)[k])
                && way.contains(way.filter(keep)[k]),
        forall|x: int| way.contains(x) && keep(x) ==> #[trigger] way.filter(keep).contains(x),
    decreases way.len(),
{
    reveal(Seq::filter);
    if way.len() > 0 {
        lemma_filtered(way.drop_last(), keep);
        let before = way.drop_last().filter(keep);
        let now = way.filter(keep);
        assert(way.last() == way[way.len() - 1]);
        assert forall|k: int| 0 <= k < now.len() implies keep(#[trigger] now[k]) && way.contains(
            now[k],
        ) by {
            if k < before.len() {
                assert(now[k] == before[k]);
                let w = choose|w: int|
                    0 <= w < way.drop_last().len() && #[trigger] way.drop_last()[w] == before[k];
                assert(way[w] == now[k]);
            }
        }
        assert forall|x: int| way.contains(x) && keep(x) implies #[trigger] now.contains(x) by {
            let w = choose|w: int| 0 <= w < way.len() && #[trigger] way[w] == x;
            if w < way.len() - 1 {
                assert(way.drop_last()[w] == x);
                assert(before.contains(x));
                let k = choose|k: int| 0 <= k < before.len() && #[trigger] before[k] == x;
                assert(now[k] == x);
            } else {
                assert(now[now.len() - 1] == x);
            }
        }
    }
}

proof fn lemma_calls(es: Seq<ChainModel>, n: nat)
    requires
        n <= es.len(),
    ensures
        planning::all_uses(es, n) == es.take(n as int).map_values(
            |e: ChainModel|
                match e.payload {
                    PayloadModel::Assistant(m) => m.blocks.filter_map(|b: BlockModel| call_in(b)),
                    _ => Seq::<UseModel>::empty(),
                },
        ).flatten(),
        es.take(es.len() as int) == es,
    decreases n,
{
    broadcast use Seq::lemma_flatten_push;

    let f = |e: ChainModel|
        match e.payload {
            PayloadModel::Assistant(m) => m.blocks.filter_map(|b: BlockModel| call_in(b)),
            _ => Seq::<UseModel>::empty(),
        };
    assert(es.take(es.len() as int) =~= es);
    let now = es.take(n as int);
    if n > 0 {
        lemma_calls(es, (n - 1) as nat);
        let was = es.take(n - 1);
        let e = es[n - 1];
        assert(now.map_values(f) =~= was.map_values(f).push(f(e)));
        if let PayloadModel::Assistant(m) = e.payload {
            lemma_blocks(m.blocks, m.blocks.len());
            assert(m.blocks.take(m.blocks.len() as int) =~= m.blocks);
        }
    } else {
        assert(now.map_values(f).flatten() =~= Seq::empty());
    }
}

proof fn lemma_stimuli(es: Seq<ChainModel>, us: Seq<UseModel>, found: Seq<int>, n: nat)
    requires
        n <= found.len(),
        forall|k: int| 0 <= k < found.len() ==> es[#[trigger] found[k]].payload is User,
    ensures
        planning::stimuli(es, found, n).map_values(
            |s: StimulusModel| planning::shown_stimulus(s, us),
        ) == found.reverse().take(n as int).map_values(
            |j: int| shown_parts(es[j].payload->User_0, us),
        ).flatten(),
    decreases n,
{
    broadcast use Seq::lemma_flatten_push;

    let show = |s: StimulusModel| planning::shown_stimulus(s, us);
    let f = |j: int| shown_parts(es[j].payload->User_0, us);
    let now = found.reverse().take(n as int);
    if n > 0 {
        lemma_stimuli(es, us, found, (n - 1) as nat);
        let was = found.reverse().take(n - 1);
        let j = found[found.len() - n];
        assert(now =~= was.push(j));
        assert(now.map_values(f) =~= was.map_values(f).push(f(j)));
        let m = es[j].payload->User_0;
        let own = planning::entry_stimuli(es[j]);
        assert(own.map_values(show) =~= f(j)) by {
            assert forall|k: int| 0 <= k < own.len() implies show(#[trigger] own[k]) == f(j)[k] by {
            }
        }
        let before = planning::stimuli(es, found, (n - 1) as nat);
        assert((before + own).map_values(show) =~= before.map_values(show) + own.map_values(show));
    } else {
        assert(now.map_values(f).flatten() =~= Seq::empty());
        assert(planning::stimuli(es, found, 0).map_values(show) =~= Seq::empty());
    }
}

proof fn lemma_some_human(es: Seq<ChainModel>, found: Seq<int>, n: nat)
    requires
        n <= found.len(),
        forall|k: int| 0 <= k < found.len() ==> es[#[trigger] found[k]].payload is User,
    ensures
        ({
            let ss = planning::stimuli(es, found, n);
            (exists|i: int| 0 <= i < ss.len() && planning::is_human(#[trigger] ss[i])) <==> exists|
                k: int,
            |
                found.len() - n <= k < found.len() && writes(es[#[trigger] found[k]])
        }),
    decreases n,
{
    if n > 0 {
        lemma_some_human(es, found, (n - 1) as nat);
        let before = planning::stimuli(es, found, (n - 1) as nat);
        let ss = planning::stimuli(es, found, n);
        let at = found.len() - n;
        let own = planning::entry_stimuli(es[found[at]]);
        let m = es[found[at]].payload->User_0;
        assert forall|k: int| 0 <= k < own.len() implies (planning::is_human(#[trigger] own[k])
            <==> k < m.texts.len() && !m.meta && !m.compact_summary) by {}
        if writes(es[found[at]]) {
            assert(planning::is_human(own[0]));
            assert(ss[before.len() as int] == own[0]);
        }
        if exists|i: int| 0 <= i < before.len() && planning::is_human(#[trigger] before[i]) {
            let i = choose|i: int|
                0 <= i < before.len() && planning::is_human(#[trigger] before[i]);
            assert(planning::is_human(ss[i]));
        }
        if exists|i: int| 0 <= i < ss.len() && planning::is_human(#[trigger] ss[i]) {
            let i = choose|i: int| 0 <= i < ss.len() && planning::is_human(#[trigger] ss[i]);
            if i < before.len() {
                assert(planning::is_human(before[i]));
            } else {
                assert(planning::is_human(own[i - before.len()]));
                assert(writes(es[found[at]]));
            }
        }
        if exists|k: int| at <= k < found.len() && writes(es[#[trigger] found[k]]) {
            let k = choose|k: int| at <= k < found.len() && writes(es[#[trigger] found[k]]);
            if k > at {
                assert(found.len() - (n - 1) <= k && writes(es[found[k]]));
            }
        }
    }
}

/// The result of a tool call names the tool of the first call with its identifier.
pub proof fn law_result_names_its_tool(us: Seq<UseModel>, id: Seq<char>)
    ensures
        forall|i: int|
            0 <= i < us.len() && (#[trigger] us[i]).id == id && (forall|q: int|
                0 <= q < i ==> (#[trigger] us[q]).id != id) ==> planning::tool_named(us, id)
                == us[i].name,
        (forall|i: int| 0 <= i < us.len() ==> (#[trigger] us[i]).id != id) ==> planning::tool_named(
            us,
            id,
        ) == "unknown-tool"@,
{
    let ids = planning::use_ids(us);
    lemma_first_position(ids, id, 0);
    assert forall|i: int|
        0 <= i < us.len() && (#[trigger] us[i]).id == id && (forall|q: int|
            0 <= q < i ==> (#[trigger] us[q]).id != id) implies planning::tool_named(us, id)
        == us[i].name by {
        assert(ids[i] == us[i].id);
        let p = textset::position_of(ids, id, 0)->0;
        assert(ids[p] == us[p].id);
        if p < i {
            assert(us[p].id != id);
        }
    }
    if forall|i: int| 0 <= i < us.len() ==> (#[trigger] us[i]).id != id {
        if let Some(p) = textset::position_of(ids, id, 0) {
            assert(ids[p] == us[p].id);
        }
    }
}

/// The lines that a call of the reading tool names: from its offset, as many as its
/// limit says, where it has both and they are above zero and fit.
pub proof fn law_lines_are_counted_from_the_offset(input: JsonModel)
    ensures
        forall|offset: i64, limit: i64|
            planning::positive_argument(input, "offset"@) == Some(offset)
                && planning::positive_argument(input, "limit"@) == Some(limit) && 0 < offset && 0
                < limit && #[trigger] (offset + limit) <= 2147483647 ==> planning::lines_read(
                "Read"@,
                input,
            ) == (Some(offset as i32), Some((offset + limit - 1) as i32)),
        planning::positive_argument(input, "offset"@) is None ==> planning::lines_read(
            "Read"@,
            input,
        ) == (None::<i32>, None::<i32>),
{
}

proof fn lemma_last_entry(es: Seq<ChainModel>, key: Seq<char>, n: nat)
    requires
        n <= es.len(),
        planning::group_members(es, key, n).len() > 0,
    ensures
        ({
            let last = planning::group_members(es, key, n).last();
            &&& 0 <= last < n
            &&& belongs_to(es[last], key)
            &&& forall|q: int| last < q < n ==> !belongs_to(#[trigger] es[q], key)
        }),
    decreases n,
{
    if n > 0 && !belongs_to(es[n - 1], key) {
        lemma_last_entry(es, key, (n - 1) as nat);
    }
}

proof fn lemma_captured(
    es: Seq<ChainModel>,
    keys: Seq<Seq<char>>,
    n: nat,
    input: PlanInput,
    start: PlanOutcome,
)
    requires
        n <= keys.len(),
        start.interactions.len() == 0,
    ensures
        ({
            let out = planning::planned_through(es, keys, n, input, start);
            let closed = |k: Seq<char>| planning::response_closed(es, k, input.final_mode);
            let made = keys.take(n as int).filter(closed);
            &&& out.interactions == made.map_values(
                |k: Seq<char>| planning::planned(es, k, input),
            )
            &&& out.pending_responses == start.pending_responses + n - made.len()
            &&& out.cursor_offset == if made.len() == 0 {
                start.cursor_offset
            } else {
                out.interactions.last().first_offset
            }
            &&& out.title == start.title
            &&& out.first_human_prompt == start.first_human_prompt
        }),
    decreases n,
{
    reveal(Seq::filter);
    let closed = |k: Seq<char>| planning::response_closed(es, k, input.final_mode);
    let plan = |k: Seq<char>| planning::planned(es, k, input);
    let now = keys.take(n as int);
    if n > 0 {
        lemma_captured(es, keys, (n - 1) as nat, input, start);
        let was = keys.take(n - 1);
        assert(now.drop_last() =~= was);
        assert(now.last() == keys[n - 1]);
        assert(was.filter(closed).push(keys[n - 1]).map_values(plan) =~= was.filter(
            closed,
        ).map_values(plan).push(plan(keys[n - 1])));
    } else {
        assert(now.filter(closed).map_values(plan) =~= Seq::empty());
        assert(start.interactions =~= Seq::empty());
    }
}

/// A response of a window is captured exactly where it is complete: at the end of a
/// session, or where something follows its last entry and each of its tool calls has
/// a result or a later entry shows that the conversation has moved on.
pub proof fn law_complete_responses_are_captured(
    lines: Seq<LineModel>,
    window_start: u64,
    input: PlanInput,
    key: Seq<char>,
)
    ensures
        ({
            let es = lines.filter_map(
                |l: LineModel|
                    match l {
                        LineModel::Entry(e) => Some(e),
                        _ => None,
                    },
            );
            let out = planning::plan_of_window(lines, window_start, input);
            let calls = es.filter(|e: ChainModel| belongs_to(e, key)).map_values(
                |e: ChainModel|
                    planning::blocks_of(e).filter_map(
                        |b: BlockModel|
                            match b {
                                BlockModel::ToolUse { id, name, input } => Some(
                                    UseModel { id, name, input },
                                ),
                                _ => None,
                            },
                    ),
            ).flatten();
            let results = es.map_values(
                |e: ChainModel|
                    match e.payload {
                        PayloadModel::User(m) => m.tool_results,
                        _ => Seq::empty(),
                    },
            ).flatten();
            let stands = exists|i: int| 0 <= i < es.len() && belongs_to(#[trigger] es[i], key);
            let complete = input.final_mode || exists|last: int|
                0 <= last && last + 1 < es.len() && belongs_to(#[trigger] es[last], key) && (forall|
                    q: int,
                |
                    last < q < es.len() ==> !belongs_to(#[trigger] es[q], key)) && ((forall|i: int|
                    0 <= i < calls.len() ==> exists|r: int|
                        0 <= r < results.len() && (#[trigger] results[r]).tool_use_id == (
                        #[trigger] calls[i]).id) || exists|q: int|
                    last < q < es.len() && match (#[trigger] es[q]).payload {
                        PayloadModel::User(m) => m.texts.len() > 0 || m.compact_summary,
                        PayloadModel::Assistant(_) => true,
                        PayloadModel::Other(kind) => kind == OtherKind::StopHookSummary || kind
                            == OtherKind::CompactBoundary,
                    });
            &&& stands && complete ==> exists|k: int|
                0 <= k < out.interactions.len() && #[trigger] out.interactions[k]
                    == planning::planned(es, key, input)
            &&& !(stands && complete) ==> forall|k: int|
                0 <= k < out.interactions.len() ==> (#[trigger] out.interactions[k]).response_key
                    != key
        }),
{
    law_entries_are_those_of_the_lines(lines);
    let es = planning::chain(lines, lines.len());
    let keys = planning::group_keys(es, es.len());
    let out = planning::plan_of_window(lines, window_start, input);
    let start = PlanOutcome {
        interactions: Seq::empty(),
        pending_responses: 0,
        cursor_offset: window_start,
        title: planning::last_title(lines, lines.len()),
        first_human_prompt: planning::first_prompt(es, 0),
    };
    lemma_captured(es, keys, keys.len(), input, start);
    assert(keys.take(keys.len() as int) =~= keys);
    let closed = |k: Seq<char>| planning::response_closed(es, k, input.final_mode);
    let made = keys.filter(closed);
    lemma_kept(keys, closed);
    let ps = planning::group_members(es, key, es.len());
    let us = planning::group_uses(es, ps, ps.len());
    let rs = planning::all_results(es, es.len());
    lemma_members(es, key, es.len());
    lemma_parts(es, ps, ps.len());
    assert(ps.take(ps.len() as int) =~= ps);
    assert(es.take(es.len() as int) =~= es);
    let call = |b: BlockModel|
        match b {
            BlockModel::ToolUse { id, name, input } => Some(UseModel { id, name, input }),
            _ => None,
        };
    assert(call =~= (|b: BlockModel| call_in(b)));
    lemma_results(es, es.len());
    let stands = exists|i: int| 0 <= i < es.len() && belongs_to(#[trigger] es[i], key);
    assert(stands <==> keys.contains(key)) by {
        if stands {
            let i = choose|i: int| 0 <= i < es.len() && belongs_to(#[trigger] es[i], key);
            rereading::lemma_key_found(es, es.len(), i);
        }
        if keys.contains(key) {
            rereading::lemma_key_stands(es, es.len(), key);
            let j = choose|j: int|
                0 <= j < es.len() && planning::response_key(#[trigger] es[j]) == Some(key);
            assert(belongs_to(es[j], key));
        }
    }
    if keys.contains(key) {
        planning::lemma_members_exist(es, key, es.len());
        lemma_last_entry(es, key, es.len());
        let last = ps.last();
        assert(planning::answered(us, rs) <==> forall|i: int|
            0 <= i < us.len() ==> exists|r: int|
                0 <= r < rs.len() && (#[trigger] rs[r]).tool_use_id == (#[trigger] us[i]).id) by {
            assert forall|i: int| 0 <= i < us.len() implies (planning::result_for(
                rs,
                (#[trigger] us[i]).id,
            ) is Some <==> exists|r: int|
                0 <= r < rs.len() && (#[trigger] rs[r]).tool_use_id == us[i].id) by {
                lemma_some_result(rs, us[i].id);
            }
        }
        assert forall|l: int|
            0 <= l && l + 1 < es.len() && belongs_to(#[trigger] es[l], key) && (forall|q: int|
                l < q < es.len() ==> !belongs_to(#[trigger] es[q], key)) implies l == last by {
            if l < last {
                assert(!belongs_to(es[last], key));
            }
            if last < l {
                assert(!belongs_to(es[l], key));
            }
        }
        assert(belongs_to(es[last], key));
        assert(planning::moved_on(es, last + 1) <==> exists|q: int|
            last < q < es.len() && match (#[trigger] es[q]).payload {
                PayloadModel::User(m) => m.texts.len() > 0 || m.compact_summary,
                PayloadModel::Assistant(_) => true,
                PayloadModel::Other(kind) => kind == OtherKind::StopHookSummary || kind
                    == OtherKind::CompactBoundary,
            }) by {
            if planning::moved_on(es, last + 1) {
                let q = choose|q: int|
                    last + 1 <= q < es.len() && planning::moves_on(#[trigger] es[q]);
                assert(planning::moves_on(es[q]));
            }
            if exists|q: int|
                last < q < es.len() && match (#[trigger] es[q]).payload {
                    PayloadModel::User(m) => m.texts.len() > 0 || m.compact_summary,
                    PayloadModel::Assistant(_) => true,
                    PayloadModel::Other(kind) => kind == OtherKind::StopHookSummary || kind
                        == OtherKind::CompactBoundary,
                } {
                let q = choose|q: int|
                    last < q < es.len() && match (#[trigger] es[q]).payload {
                        PayloadModel::User(m) => m.texts.len() > 0 || m.compact_summary,
                        PayloadModel::Assistant(_) => true,
                        PayloadModel::Other(kind) => kind == OtherKind::StopHookSummary || kind
                            == OtherKind::CompactBoundary,
                    };
                assert(planning::moves_on(es[q]));
            }
        }
        if closed(key) {
            assert(made.contains(key));
            let k = choose|k: int| 0 <= k < made.len() && #[trigger] made[k] == key;
            assert(out.interactions[k] == planning::planned(es, key, input));
        }
    }
    assert forall|k: int|
        0 <= k < out.interactions.len() implies keys.contains((#[trigger] out.interactions[k]).response_key)
        && closed(out.interactions[k].response_key) by {
        assert(out.interactions[k] == planning::planned(es, made[k], input));
    }
}

proof fn lemma_some_result(rs: Seq<ResultModel>, id: Seq<char>)
    ensures
        planning::result_for(rs, id) is Some <==> exists|r: int|
            0 <= r < rs.len() && (#[trigger] rs[r]).tool_use_id == id,
{
    let ids = planning::result_ids(rs);
    lemma_first_position(ids, id, 0);
    if let Some(i) = textset::position_of(ids, id, 0) {
        assert(rs[i].tool_use_id == ids[i]);
    }
    if exists|r: int| 0 <= r < rs.len() && (#[trigger] rs[r]).tool_use_id == id {
        let r = choose|r: int| 0 <= r < rs.len() && (#[trigger] rs[r]).tool_use_id == id;
        assert(ids[r] == rs[r].tool_use_id);
    }
}

/// What a filter keeps: what meets the condition, in the order it had.
proof fn lemma_kept(keys: Seq<Seq<char>>, keep: spec_fn(Seq<char>) -> bool)
    ensures
        forall|k: int|
            0 <= k < keys.filter(keep).len() ==> keep(#[trigger] keys.filter(keep)[k])
                && keys.contains(keys.filter(keep)[k]),
        forall|x: Seq<char>|
            keys.contains(x) && keep(x) ==> #[trigger] keys.filter(keep).contains(x),
        forall|j: int, k: int|
            0 <= j < k < keys.filter(keep).len() ==> exists|a: int, b: int|
                0 <= a < b < keys.len() && #[trigger] keys[a] == #[trigger] keys.filter(keep)[j]
                    && #[trigger] keys[b] == #[trigger] keys.filter(keep)[k],
    decreases keys.len(),
{
    reveal(Seq::filter);
    if keys.len() > 0 {
        lemma_kept(keys.drop_last(), keep);
        let was = keys.drop_last();
        let before = was.filter(keep);
        let now = keys.filter(keep);
        assert(keys.last() == keys[keys.len() - 1]);
        assert forall|k: int| 0 <= k < now.len() implies keep(#[trigger] now[k]) && keys.contains(
            now[k],
        ) by {
            if k < before.len() {
                assert(now[k] == before[k]);
                let w = choose|w: int| 0 <= w < was.len() && #[trigger] was[w] == before[k];
                assert(keys[w] == now[k]);
            }
        }
        assert forall|x: Seq<char>| keys.contains(x) && keep(x) implies #[trigger] now.contains(
            x,
        ) by {
            let w = choose|w: int| 0 <= w < keys.len() && #[trigger] keys[w] == x;
            if w < keys.len() - 1 {
                assert(was[w] == x);
                assert(before.contains(x));
                let k = choose|k: int| 0 <= k < before.len() && #[trigger] before[k] == x;
                assert(now[k] == x);
            } else {
                assert(now[now.len() - 1] == x);
            }
        }
        assert forall|j: int, k: int| 0 <= j < k < now.len() implies exists|a: int, b: int|
            0 <= a < b < keys.len() && #[trigger] keys[a] == #[trigger] now[j] && #[trigger] keys[b]
                == #[trigger] now[k] by {
            if k < before.len() {
                assert(now[j] == before[j] && now[k] == before[k]);
                let (a, b) = choose|a: int, b: int|
                    0 <= a < b < was.len() && #[trigger] was[a] == before[j] && #[trigger] was[b]
                        == before[k];
                assert(keys[a] == now[j] && keys[b] == now[k]);
            } else {
                assert(now[j] == before[j]);
                let a = choose|a: int| 0 <= a < was.len() && #[trigger] was[a] == before[j];
                assert(keys[a] == now[j] && keys[keys.len() - 1] == now[k]);
            }
        }
    }
}

proof fn lemma_key_begins(es: Seq<ChainModel>, n: nat, a: int) -> (x: int)
    requires
        n <= es.len(),
        0 <= a < planning::group_keys(es, n).len(),
    ensures
        0 <= x < n,
        belongs_to(es[x], planning::group_keys(es, n)[a]),
        forall|q: int| 0 <= q < x ==> !belongs_to(#[trigger] es[q], planning::group_keys(es, n)[a]),
        a < planning::group_keys(es, (x + 1) as nat).len(),
        a >= planning::group_keys(es, x as nat).len(),
    decreases n,
{
    let before = planning::group_keys(es, (n - 1) as nat);
    if a < before.len() {
        lemma_key_begins(es, (n - 1) as nat, a)
    } else {
        let key = planning::group_keys(es, n)[a];
        assert forall|q: int| 0 <= q < n - 1 implies !belongs_to(#[trigger] es[q], key) by {
            if belongs_to(es[q], key) {
                rereading::lemma_key_found(es, (n - 1) as nat, q);
            }
        }
        n - 1
    }
}

/// Responses are captured each once and in the order in which they begin, and reading
/// goes on where the last that was captured begins; what is not captured is counted
/// as pending. The title is the last one that the lines give.
pub proof fn law_responses_are_captured_in_order(
    lines: Seq<LineModel>,
    window_start: u64,
    input: PlanInput,
)
    ensures
        ({
            let es = lines.filter_map(
                |l: LineModel|
                    match l {
                        LineModel::Entry(e) => Some(e),
                        _ => None,
                    },
            );
            let out = planning::plan_of_window(lines, window_start, input);
            &&& forall|j: int, k: int|
                0 <= j < k < out.interactions.len() ==> exists|x: int, y: int|
                    0 <= x < y < es.len() && belongs_to(
                        #[trigger] es[x],
                        (#[trigger] out.interactions[j]).response_key,
                    ) && belongs_to(
                        #[trigger] es[y],
                        (#[trigger] out.interactions[k]).response_key,
                    ) && forall|q: int|
                        0 <= q < y ==> !belongs_to(
                            #[trigger] es[q],
                            out.interactions[k].response_key,
                        )
            &&& out.interactions.len() + out.pending_responses == es.filter_map(
                |e: ChainModel|
                    match e.payload {
                        PayloadModel::Assistant(m) => Some(
                            match m.request_id {
                                Some(r) => r,
                                None => "uuid:"@ + e.uuid,
                            },
                        ),
                        _ => None,
                    },
            ).to_set().len()
            &&& out.cursor_offset == if out.interactions.len() == 0 {
                window_start
            } else {
                out.interactions.last().first_offset
            }
            &&& match out.title {
                Some(t) => exists|i: int|
                    0 <= i < lines.len() && (#[trigger] lines[i] matches LineModel::Title(x) && t
                        == bounded::bounded(x, 120)) && forall|q: int|
                        i < q < lines.len() ==> (#[trigger] lines[q]) !is Title,
                None => forall|i: int| 0 <= i < lines.len() ==> (#[trigger] lines[i]) !is Title,
            }
        }),
{
    law_entries_are_those_of_the_lines(lines);
    let es = planning::chain(lines, lines.len());
    let keys = planning::group_keys(es, es.len());
    let out = planning::plan_of_window(lines, window_start, input);
    let start = PlanOutcome {
        interactions: Seq::empty(),
        pending_responses: 0,
        cursor_offset: window_start,
        title: planning::last_title(lines, lines.len()),
        first_human_prompt: planning::first_prompt(es, 0),
    };
    lemma_captured(es, keys, keys.len(), input, start);
    assert(keys.take(keys.len() as int) =~= keys);
    let closed = |k: Seq<char>| planning::response_closed(es, k, input.final_mode);
    let made = keys.filter(closed);
    lemma_kept(keys, closed);
    assert forall|j: int, k: int| 0 <= j < k < out.interactions.len() implies exists|
        x: int,
        y: int,
    |
        0 <= x < y < es.len() && belongs_to(
            #[trigger] es[x],
            (#[trigger] out.interactions[j]).response_key,
        ) && belongs_to(#[trigger] es[y], (#[trigger] out.interactions[k]).response_key) && forall|
            q: int,
        |
            0 <= q < y ==> !belongs_to(#[trigger] es[q], out.interactions[k].response_key) by {
        assert(out.interactions[j] == planning::planned(es, made[j], input));
        assert(out.interactions[k] == planning::planned(es, made[k], input));
        let (a, b) = choose|a: int, b: int|
            0 <= a < b < keys.len() && #[trigger] keys[a] == made[j] && #[trigger] keys[b]
                == made[k];
        let x = lemma_key_begins(es, es.len(), a);
        let y = lemma_key_begins(es, es.len(), b);
        if y <= x {
            rereading::lemma_keys_prefix(es, (y + 1) as nat, (x + 1) as nat);
            if y < x {
                rereading::lemma_keys_prefix(es, (y + 1) as nat, x as nat);
            } else {
                planning::lemma_keys_differ(es, es.len(), a, b);
            }
        }
        assert(belongs_to(es[x], made[j]) && belongs_to(es[y], made[k]));
    }
    let key_of = |e: ChainModel|
        match e.payload {
            PayloadModel::Assistant(m) => Some(
                match m.request_id {
                    Some(r) => r,
                    None => "uuid:"@ + e.uuid,
                },
            ),
            _ => None,
        };
    lemma_key_set(es, es.len());
    assert(es.take(es.len() as int) =~= es);
    assert(key_of =~= (|e: ChainModel| planning::response_key(e)));
    assert(keys.no_duplicates()) by {
        assert forall|a: int, b: int| 0 <= a < keys.len() && 0 <= b < keys.len() && a != b implies keys[a]
            != keys[b] by {
            if a < b {
                planning::lemma_keys_differ(es, es.len(), a, b);
            } else {
                planning::lemma_keys_differ(es, es.len(), b, a);
            }
        }
    }
    keys.unique_seq_to_set();
    lemma_title_given(lines, lines.len());
}

proof fn lemma_key_set(es: Seq<ChainModel>, n: nat)
    requires
        n <= es.len(),
    ensures
        planning::group_keys(es, n).to_set() == es.take(n as int).filter_map(
            |e: ChainModel| planning::response_key(e),
        ).to_set(),
    decreases n,
{
    let f = |e: ChainModel| planning::response_key(e);
    let now = es.take(n as int);
    let keys = planning::group_keys(es, n);
    reveal_with_fuel(Seq::filter_map, 2);
    if n > 0 {
        lemma_key_set(es, (n - 1) as nat);
        let before = planning::group_keys(es, (n - 1) as nat);
        assert(now.drop_last() =~= es.take(n - 1));
        assert(now.last() == es[n - 1]);
        let was = es.take(n - 1).filter_map(f);
        if let Some(k) = planning::response_key(es[n - 1]) {
            assert(now.filter_map(f) == was + seq![k]);
            assert forall|x: Seq<char>| (was + seq![k]).to_set().contains(x) <==> was.to_set().contains(x) || x
                == k by {
                if x == k {
                    assert((was + seq![k])[was.len() as int] == k);
                }
                if was.contains(x) {
                    let i = choose|i: int| 0 <= i < was.len() && #[trigger] was[i] == x;
                    assert((was + seq![k])[i] == x);
                }
                if (was + seq![k]).contains(x) {
                    let i = choose|i: int|
                        0 <= i < was.len() + 1 && #[trigger] (was + seq![k])[i] == x;
                    if i < was.len() {
                        assert(was[i] == x);
                    }
                }
            }
            assert forall|x: Seq<char>| keys.to_set().contains(x) <==> before.to_set().contains(x) || x == k by {
                if before.contains(x) {
                    let i = choose|i: int| 0 <= i < before.len() && #[trigger] before[i] == x;
                    assert(keys[i] == x);
                }
                if x == k && !before.contains(k) {
                    assert(keys[before.len() as int] == k);
                }
                if keys.contains(x) {
                    let i = choose|i: int| 0 <= i < keys.len() && #[trigger] keys[i] == x;
                    if i < before.len() {
                        assert(before[i] == x);
                    }
                }
            }
            assert(keys.to_set() =~= now.filter_map(f).to_set());
        }
    } else {
        assert(now.filter_map(f) =~= Seq::empty());
        assert(keys.to_set() =~= now.filter_map(f).to_set());
    }
}

proof fn lemma_title_given(lines: Seq<LineModel>, n: nat)
    requires
        n <= lines.len(),
    ensures
        match planning::last_title(lines, n) {
            Some(t) => exists|i: int|
                0 <= i < n && (#[trigger] lines[i] matches LineModel::Title(x) && t
                    == bounded::bounded(x, 120)) && forall|q: int|
                    i < q < n ==> (#[trigger] lines[q]) !is Title,
            None => forall|i: int| 0 <= i < n ==> (#[trigger] lines[i]) !is Title,
        },
    decreases n,
{
    if n > 0 && lines[n - 1] !is Title {
        lemma_title_given(lines, (n - 1) as nat);
        if let Some(t) = planning::last_title(lines, (n - 1) as nat) {
            let i = choose|i: int|
                0 <= i < n - 1 && (#[trigger] lines[i] matches LineModel::Title(x) && t
                    == bounded::bounded(x, 120)) && forall|q: int|
                    i < q < n - 1 ==> (#[trigger] lines[q]) !is Title;
            assert(lines[i] is Title);
        }
    } else if n > 0 {
        assert(lines[n - 1] is Title);
    }
}

/// The first prompt of a window: the first text that is not blank, of the first entry
/// that has one and is neither a note nor a summary.
pub proof fn law_first_prompt_is_the_first_shown(es: Seq<ChainModel>, i: int, t: int)
    requires
        0 <= i < es.len(),
        es[i].payload matches PayloadModel::User(m) && !m.meta && !m.compact_summary && 0 <= t
            < m.texts.len() && text::trimmed(m.texts[t]).len() > 0 && forall|q: int|
            0 <= q < t ==> text::trimmed(#[trigger] m.texts[q]).len() == 0,
        forall|j: int|
            0 <= j < i ==> ((#[trigger] es[j]).payload matches PayloadModel::User(m) ==> m.meta
                || m.compact_summary || forall|q: int|
                0 <= q < m.texts.len() ==> text::trimmed(#[trigger] m.texts[q]).len() == 0),
    ensures
        planning::first_prompt(es, 0) == Some(es[i].payload->User_0.texts[t]),
{
    lemma_prompt_at(es, 0, i, t);
}

proof fn lemma_prompt_at(es: Seq<ChainModel>, k: int, i: int, t: int)
    requires
        0 <= k <= i < es.len(),
        es[i].payload matches PayloadModel::User(m) && !m.meta && !m.compact_summary && 0 <= t
            < m.texts.len() && text::trimmed(m.texts[t]).len() > 0 && forall|q: int|
            0 <= q < t ==> text::trimmed(#[trigger] m.texts[q]).len() == 0,
        forall|j: int|
            0 <= j < i ==> ((#[trigger] es[j]).payload matches PayloadModel::User(m) ==> m.meta
                || m.compact_summary || forall|q: int|
                0 <= q < m.texts.len() ==> text::trimmed(#[trigger] m.texts[q]).len() == 0),
    ensures
        planning::first_prompt(es, k) == Some(es[i].payload->User_0.texts[t]),
    decreases i - k,
{
    if k < i {
        lemma_prompt_at(es, k + 1, i, t);
        if let PayloadModel::User(m) = es[k].payload {
            lemma_all_blank(m.texts, 0);
        }
    } else {
        lemma_shown_at(es[i].payload->User_0.texts, 0, t);
    }
}

proof fn lemma_all_blank(texts: Seq<Seq<char>>, k: int)
    requires
        0 <= k <= texts.len(),
    ensures
        (forall|q: int| k <= q < texts.len() ==> text::trimmed(#[trigger] texts[q]).len() == 0)
            ==> planning::first_shown(texts, k) is None,
    decreases texts.len() - k,
{
    if k < texts.len() {
        lemma_all_blank(texts, k + 1);
        if forall|q: int| k <= q < texts.len() ==> text::trimmed(#[trigger] texts[q]).len() == 0 {
            assert(text::trimmed(texts[k]).len() == 0);
        }
    }
}

proof fn lemma_shown_at(texts: Seq<Seq<char>>, k: int, t: int)
    requires
        0 <= k <= t < texts.len(),
        text::trimmed(texts[t]).len() > 0,
        forall|q: int| 0 <= q < t ==> text::trimmed(#[trigger] texts[q]).len() == 0,
    ensures
        planning::first_shown(texts, k) == Some(texts[t]),
    decreases t - k,
{
    if k < t {
        assert(text::trimmed(texts[k]).len() == 0);
        lemma_shown_at(texts, k + 1, t);
    }
}

} // verus!
