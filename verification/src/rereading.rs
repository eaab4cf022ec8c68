//! Reading a transcript again from the cursor that an earlier read left: nothing
//! new is captured, and the cursor stays.

use crate::ingest;
use crate::planning;
use crate::planning::{PlanInput, PlanOutcome};
use crate::textset;
use crate::transcript;
use crate::transcript::{ChainModel, LineModel, RawModel, TranscriptFault, WindowModel};
use vstd::prelude::*;

verus! {

/// An entry stands where its line begins.
proof fn lemma_entry_offset(
    line: Seq<u8>,
    raw: Result<RawModel, Seq<char>>,
    offset: u64,
    session: Seq<char>,
)
    ensures
        transcript::parsed_line(line, raw, offset, session) matches Ok(LineModel::Entry(e))
            ==> e.offset == offset,
{
}

/// Where the lines that are read begin.
proof fn lemma_line_offsets(
    bytes: Seq<u8>,
    raws: Seq<Result<RawModel, Seq<char>>>,
    base: int,
    session: Seq<char>,
    from: int,
    k: int,
    w: WindowModel,
)
    requires
        0 <= from <= bytes.len(),
        0 <= base,
        base + bytes.len() <= u64::MAX,
        transcript::read_lines(bytes, raws, base, session, from, k, w) is Ok,
    ensures
        ({
            let done = transcript::read_lines(bytes, raws, base, session, from, k, w)->Ok_0;
            let spans = transcript::line_spans(bytes, from);
            let n = w.lines.len();
            &&& n <= done.lines.len() <= n + spans.len()
            &&& forall|i: int| 0 <= i < n ==> done.lines[i] == #[trigger] w.lines[i]
            &&& forall|i: int|
                n <= i < done.lines.len() ==> ((#[trigger] done.lines[i]) matches LineModel::Entry(e)
                    ==> e.offset == base + spans[i - n].0)
        }),
    decreases bytes.len() - from,
{
    let done = transcript::read_lines(bytes, raws, base, session, from, k, w)->Ok_0;
    let spans = transcript::line_spans(bytes, from);
    let n = w.lines.len();
    if from < bytes.len() {
        transcript::lemma_next_feed(bytes, from);
        let end = transcript::next_feed(bytes, from);
        let raw = transcript::raw_at(raws, k);
        let offset = (base + from) as u64;
        let parsed = transcript::parsed_line(bytes.subrange(from, end), raw, offset, session);
        lemma_entry_offset(bytes.subrange(from, end), raw, offset, session);
        if parsed is Ok {
            let line = parsed->Ok_0;
            if end < bytes.len() {
                let next = WindowModel { lines: w.lines.push(line), consumed: end + 1, ..w };
                lemma_line_offsets(bytes, raws, base, session, end + 1, k + 1, next);
                let rest = transcript::line_spans(bytes, end + 1);
                assert(spans == seq![(from, end)] + rest);
                assert forall|i: int| 0 <= i < n implies done.lines[i] == #[trigger] w.lines[i] by {
                    assert(next.lines[i] == w.lines[i]);
                }
                assert forall|i: int| n <= i < done.lines.len() implies ((
                #[trigger] done.lines[i]) matches LineModel::Entry(e) ==> e.offset == base + spans[i
                    - n].0) by {
                    if i == n {
                        assert(next.lines[n as int] == line);
                        assert(done.lines[i] == line);
                        assert(spans[0] == (from, end));
                    } else {
                        assert(spans[i - n] == rest[i - n - 1]);
                    }
                }
            } else {
                assert(spans == seq![(from, end)]);
                assert(spans[0] == (from, end));
                assert(done.lines == w.lines.push(line));
            }
        }
    }
}

/// The line `i` begins behind a line feed, with `i` lines before it.
proof fn lemma_line_begins(bytes: Seq<u8>, from: int, i: int)
    requires
        0 <= from,
        0 <= i < transcript::line_spans(bytes, from).len(),
    ensures
        ({
            let s = transcript::line_spans(bytes, from)[i].0;
            &&& from <= s < bytes.len()
            &&& s == from || bytes[s - 1] == 10
            &&& transcript::line_spans(bytes.take(s), from).len() == i
        }),
    decreases bytes.len() - from,
{
    transcript::lemma_next_feed(bytes, from);
    let end = transcript::next_feed(bytes, from);
    let spans = transcript::line_spans(bytes, from);
    let s = spans[i].0;
    if i == 0 {
        assert(s == from);
        assert(bytes.take(s).len() == s);
    } else {
        let rest = transcript::line_spans(bytes, end + 1);
        assert(spans == seq![(from, end)] + rest);
        assert(spans[i] == rest[i - 1]);
        lemma_line_begins(bytes, end + 1, i - 1);
        let front = bytes.take(s);
        assert(front.last() == bytes[s - 1]);
        if s == end + 1 {
            assert(bytes[end] == 10);
        }
        assert(front + bytes.skip(s) =~= bytes);
        transcript::lemma_feed_in_front(front, bytes.skip(s), from);
        assert(transcript::next_feed(front, from) == end);
        assert(transcript::line_spans(front, from) == seq![(from, end)] + transcript::line_spans(
            front,
            end + 1,
        ));
    }
}

/// The first part of what can be read can be read, line for line.
proof fn lemma_front_is_read(
    a: Seq<u8>,
    b: Seq<u8>,
    ra: Seq<Result<RawModel, Seq<char>>>,
    rb: Seq<Result<RawModel, Seq<char>>>,
    base: int,
    session: Seq<char>,
    from: int,
    k: int,
    w: WindowModel,
)
    requires
        transcript::ends_a_line(a),
        0 <= from <= a.len(),
        0 <= k,
        k + transcript::line_spans(a, from).len() == ra.len(),
        transcript::read_lines(a + b, ra + rb, base, session, from, k, w) is Ok,
    ensures
        transcript::read_lines(a, ra, base, session, from, k, w) is Ok,
        (transcript::read_lines(a, ra, base, session, from, k, w)->Ok_0).lines.len() == w.lines.len()
            + transcript::line_spans(a, from).len(),
    decreases a.len() - from,
{
    if from < a.len() {
        transcript::lemma_feed_in_front(a, b, from);
        let end = transcript::next_feed(a, from);
        assert((a + b).subrange(from, end) =~= a.subrange(from, end));
        assert(transcript::line_spans(a, from) == seq![(from, end)] + transcript::line_spans(
            a,
            end + 1,
        ));
        assert((ra + rb)[k] == ra[k]);
        let parsed = transcript::parsed_line(
            a.subrange(from, end),
            ra[k],
            (base + from) as u64,
            session,
        );
        let next = WindowModel { lines: w.lines.push(parsed->Ok_0), consumed: end + 1, ..w };
        lemma_front_is_read(a, b, ra, rb, base, session, end + 1, k + 1, next);
    }
}

proof fn lemma_chain_front(a: Seq<LineModel>, b: Seq<LineModel>, n: nat)
    requires
        n <= a.len(),
    ensures
        planning::chain(a + b, n) == planning::chain(a, n),
    decreases n,
{
    if n > 0 {
        lemma_chain_front(a, b, (n - 1) as nat);
        assert((a + b)[n - 1] == a[n - 1]);
    }
}

proof fn lemma_chain_joined(a: Seq<LineModel>, b: Seq<LineModel>, n: nat)
    requires
        n <= b.len(),
    ensures
        planning::chain(a + b, a.len() + n) == planning::chain(a, a.len()) + planning::chain(b, n),
    decreases n,
{
    if n == 0 {
        lemma_chain_front(a, b, a.len());
        assert(planning::chain(a, a.len()) + planning::chain(b, 0) =~= planning::chain(a, a.len()));
    } else {
        lemma_chain_joined(a, b, (n - 1) as nat);
        assert((a + b)[a.len() + n - 1] == b[n - 1]);
        let front = planning::chain(a, a.len());
        let before = planning::chain(b, (n - 1) as nat);
        match b[n - 1] {
            LineModel::Entry(e) => {
                assert((front + before).push(e) =~= front + before.push(e));
            },
            _ => {},
        }
    }
}

/// The line of an entry.
proof fn lemma_line_of(lines: Seq<LineModel>, n: nat, m: int) -> (i: int)
    requires
        n <= lines.len(),
        0 <= m < planning::chain(lines, n).len(),
    ensures
        0 <= i < n,
        lines[i] == LineModel::Entry(planning::chain(lines, n)[m]),
        planning::chain(lines, i as nat) == planning::chain(lines, n).take(m),
    decreases n,
{
    let before = planning::chain(lines, (n - 1) as nat);
    let now = planning::chain(lines, n);
    if m < before.len() {
        let i = lemma_line_of(lines, (n - 1) as nat, m);
        assert(now.take(m) =~= before.take(m));
        i
    } else {
        assert(now.take(m) =~= before);
        n - 1
    }
}

pub proof fn lemma_key_stands(es: Seq<ChainModel>, n: nat, key: Seq<char>)
    requires
        n <= es.len(),
        planning::group_keys(es, n).contains(key),
    ensures
        exists|j: int| 0 <= j < n && planning::response_key(#[trigger] es[j]) == Some(key),
{
    planning::lemma_members_exist(es, key, n);
    planning::lemma_members_valid(es, key, n);
    planning::lemma_members_keyed(es, key, n);
    let j = planning::group_members(es, key, n)[0];
    assert(planning::response_key(es[j]) == Some(key));
}

/// A response with an entry among the first `n` is among their responses.
pub proof fn lemma_key_found(es: Seq<ChainModel>, n: nat, x: int)
    requires
        0 <= x < n <= es.len(),
        planning::response_key(es[x]) is Some,
    ensures
        planning::group_keys(es, n).contains(planning::response_key(es[x])->0),
    decreases n,
{
    let k = planning::response_key(es[x])->0;
    let before = planning::group_keys(es, (n - 1) as nat);
    let now = planning::group_keys(es, n);
    if x < n - 1 {
        lemma_key_found(es, (n - 1) as nat, x);
        assert(now[before.index_of(k)] == k);
    } else if !before.contains(k) {
        assert(now[before.len() as int] == k);
    }
}

/// The responses of the first entries are the first responses.
pub proof fn lemma_keys_prefix(es: Seq<ChainModel>, m: nat, n: nat)
    requires
        m <= n <= es.len(),
    ensures
        planning::group_keys(es, m).len() <= planning::group_keys(es, n).len(),
        forall|i: int|
            0 <= i < planning::group_keys(es, m).len() ==> #[trigger] planning::group_keys(es, m)[i]
                == planning::group_keys(es, n)[i],
    decreases n - m,
{
    if m < n {
        lemma_keys_prefix(es, m, (n - 1) as nat);
    }
}

/// The first entry of a response has none of it before it.
proof fn lemma_first_is_least(es: Seq<ChainModel>, key: Seq<char>, n: nat)
    requires
        n <= es.len(),
    ensures
        ({
            let ps = planning::group_members(es, key, n);
            let end = if ps.len() > 0 {
                ps[0]
            } else {
                n as int
            };
            forall|j: int| 0 <= j < end ==> planning::response_key(#[trigger] es[j]) != Some(key)
        }),
    decreases n,
{
    if n > 0 {
        lemma_first_is_least(es, key, (n - 1) as nat);
    }
}

proof fn lemma_keys_front(a: Seq<ChainModel>, b: Seq<ChainModel>, n: nat)
    requires
        n <= a.len(),
    ensures
        planning::group_keys(a + b, n) == planning::group_keys(a, n),
    decreases n,
{
    if n > 0 {
        lemma_keys_front(a, b, (n - 1) as nat);
        assert((a + b)[n - 1] == a[n - 1]);
    }
}

/// The entries of a response that has none among the first entries.
proof fn lemma_members_behind(a: Seq<ChainModel>, b: Seq<ChainModel>, key: Seq<char>, n: nat)
    requires
        n <= b.len(),
        forall|j: int| 0 <= j < a.len() ==> planning::response_key(#[trigger] a[j]) != Some(key),
    ensures
        planning::group_members(a + b, key, a.len() + n).len() == planning::group_members(
            b,
            key,
            n,
        ).len(),
        forall|i: int|
            0 <= i < planning::group_members(b, key, n).len() ==> planning::group_members(
                a + b,
                key,
                a.len() + n,
            )[i] == a.len() + #[trigger] planning::group_members(b, key, n)[i],
    decreases n,
{
    if n == 0 {
        lemma_no_members_in_front(a, b, key, a.len());
    } else {
        lemma_members_behind(a, b, key, (n - 1) as nat);
        assert((a + b)[a.len() + n - 1] == b[n - 1]);
        let whole = planning::group_members(a + b, key, a.len() + n);
        let part = planning::group_members(b, key, n);
        let before = planning::group_members(b, key, (n - 1) as nat);
        assert forall|i: int| 0 <= i < part.len() implies whole[i] == a.len() + #[trigger] part[i] by {
            if i < before.len() {
                assert(before[i] == part[i]);
            }
        }
    }
}

proof fn lemma_no_members_in_front(
    a: Seq<ChainModel>,
    b: Seq<ChainModel>,
    key: Seq<char>,
    n: nat,
)
    requires
        n <= a.len(),
        forall|j: int| 0 <= j < a.len() ==> planning::response_key(#[trigger] a[j]) != Some(key),
    ensures
        planning::group_members(a + b, key, n).len() == 0,
    decreases n,
{
    if n > 0 {
        lemma_no_members_in_front(a, b, key, (n - 1) as nat);
        assert((a + b)[n - 1] == a[n - 1]);
    }
}

proof fn lemma_uses_behind(
    a: Seq<ChainModel>,
    b: Seq<ChainModel>,
    whole: Seq<int>,
    part: Seq<int>,
    n: nat,
)
    requires
        n <= part.len(),
        whole.len() == part.len(),
        forall|i: int|
            0 <= i < part.len() ==> 0 <= #[trigger] part[i] < b.len() && whole[i] == a.len() + part[i],
    ensures
        planning::group_uses(a + b, whole, n) == planning::group_uses(b, part, n),
    decreases n,
{
    if n > 0 {
        lemma_uses_behind(a, b, whole, part, (n - 1) as nat);
        assert(part[n - 1] < b.len());
        assert((a + b)[whole[n - 1]] == b[part[n - 1]]);
    }
}

/// A tool call that a later entry answers is answered in the whole.
proof fn lemma_results_behind(a: Seq<ChainModel>, b: Seq<ChainModel>, n: nat, id: Seq<char>)
    requires
        n <= b.len(),
        planning::result_for(planning::all_results(b, n), id) is Some,
    ensures
        planning::result_for(planning::all_results(a + b, a.len() + n), id) is Some,
    decreases n,
{
    let part = planning::all_results(b, n);
    let whole = planning::all_results(a + b, a.len() + n);
    textset::lemma_position_of(planning::result_ids(part), id, 0);
    let x = textset::position_of(planning::result_ids(part), id, 0)->0;
    assert(part[x].tool_use_id == id);
    let y = lemma_result_kept(a, b, n, x);
    assert(planning::result_ids(whole)[y] == id);
    textset::lemma_position_of(planning::result_ids(whole), id, 0);
}

proof fn lemma_result_kept(a: Seq<ChainModel>, b: Seq<ChainModel>, n: nat, x: int) -> (y: int)
    requires
        n <= b.len(),
        0 <= x < planning::all_results(b, n).len(),
    ensures
        0 <= y < planning::all_results(a + b, a.len() + n).len(),
        planning::all_results(a + b, a.len() + n)[y] == planning::all_results(b, n)[x],
    decreases n,
{
    let before = planning::all_results(b, (n - 1) as nat);
    let held = planning::all_results(a + b, (a.len() + n - 1) as nat);
    assert((a + b)[a.len() + n - 1] == b[n - 1]);
    if x < before.len() {
        let y = lemma_result_kept(a, b, (n - 1) as nat, x);
        assert((a.len() + n - 1) as nat == a.len() + (n - 1) as nat);
        y
    } else {
        held.len() + (x - before.len())
    }
}

/// A response that is complete by what follows a position is complete in the
/// whole.
proof fn lemma_closed_behind(
    a: Seq<ChainModel>,
    b: Seq<ChainModel>,
    key: Seq<char>,
    final_mode: bool,
)
    requires
        planning::group_keys(b, b.len()).contains(key),
        forall|j: int| 0 <= j < a.len() ==> planning::response_key(#[trigger] a[j]) != Some(key),
        planning::response_closed(b, key, final_mode),
    ensures
        planning::response_closed(a + b, key, final_mode),
{
    let es = a + b;
    let part = planning::group_members(b, key, b.len());
    let whole = planning::group_members(es, key, es.len());
    planning::lemma_members_exist(b, key, b.len());
    planning::lemma_members_valid(b, key, b.len());
    lemma_members_behind(a, b, key, b.len());
    assert forall|i: int| 0 <= i < part.len() implies 0 <= #[trigger] part[i] < b.len() && whole[i]
        == a.len() + part[i] by {}
    lemma_uses_behind(a, b, whole, part, part.len());
    let us = planning::group_uses(b, part, part.len());
    assert(part[part.len() - 1] == part.last());
    assert(whole.last() == a.len() + part.last());
    if !final_mode {
        let last = part.last();
        if planning::answered(us, planning::all_results(b, b.len())) {
            assert forall|i: int| 0 <= i < us.len() implies planning::result_for(
                planning::all_results(es, es.len()),
                (#[trigger] us[i]).id,
            ) is Some by {
                lemma_results_behind(a, b, b.len(), us[i].id);
            }
        } else {
            let i = choose|i: int| last + 1 <= i < b.len() && planning::moves_on(#[trigger] b[i]);
            assert(es[a.len() + i] == b[i]);
            assert(planning::moved_on(es, whole.last() + 1));
        }
    }
}

/// The last complete response among the first `n`, which the cursor follows; -1
/// where none is complete.
proof fn lemma_last_closed(
    es: Seq<ChainModel>,
    keys: Seq<Seq<char>>,
    n: nat,
    input: PlanInput,
    start: PlanOutcome,
) -> (q: int)
    requires
        n <= keys.len(),
        start.interactions.len() == 0,
    ensures
        -1 <= q < n,
        forall|r: int|
            q < r < n ==> !planning::response_closed(es, #[trigger] keys[r], input.final_mode),
        ({
            let p = planning::planned_through(es, keys, n, input, start);
            if q >= 0 {
                &&& planning::response_closed(es, keys[q], input.final_mode)
                &&& p.cursor_offset == planning::planned(es, keys[q], input).first_offset
                &&& p.interactions.len() > 0
                &&& p.interactions.last().id == planning::planned(es, keys[q], input).id
            } else {
                &&& p.cursor_offset == start.cursor_offset
                &&& p.interactions.len() == 0
            }
        }),
    decreases n,
{
    if n == 0 {
        -1
    } else if planning::response_closed(es, keys[n - 1], input.final_mode) {
        n - 1
    } else {
        lemma_last_closed(es, keys, (n - 1) as nat, input, start)
    }
}

/// What a plan starts from.
spec fn plan_start(lines: Seq<LineModel>, window_start: u64) -> PlanOutcome {
    PlanOutcome {
        interactions: Seq::empty(),
        pending_responses: 0,
        cursor_offset: window_start,
        title: planning::last_title(lines, lines.len()),
        first_human_prompt: planning::first_prompt(planning::chain(lines, lines.len()), 0),
    }
}

/// A planned interaction comes from a complete response.
proof fn lemma_planned_is_closed(
    es: Seq<ChainModel>,
    keys: Seq<Seq<char>>,
    n: nat,
    input: PlanInput,
    start: PlanOutcome,
    i: int,
) -> (r: int)
    requires
        n <= keys.len(),
        start.interactions.len() == 0,
        0 <= i < planning::planned_through(es, keys, n, input, start).interactions.len(),
    ensures
        0 <= r < n,
        planning::response_closed(es, keys[r], input.final_mode),
        planning::planned_through(es, keys, n, input, start).interactions[i].id
            == planning::response_id(input.harness@, input.session_id@, keys[r]),
    decreases n,
{
    let before = planning::planned_through(es, keys, (n - 1) as nat, input, start);
    if i < before.interactions.len() {
        lemma_planned_is_closed(es, keys, (n - 1) as nat, input, start, i)
    } else {
        n - 1
    }
}

/// The two reads take the transcript for the same session, and as far on.
pub open spec fn same_session(a: PlanInput, b: PlanInput) -> bool {
    a.harness@ == b.harness@ && a.session_id@ == b.session_id@ && a.final_mode == b.final_mode
}

/// The cursor of a plan: the line at which it stands, if any response is
/// complete, and the entry that begins there.
proof fn lemma_cursor_entry(
    lines: Seq<LineModel>,
    window_start: u64,
    input: PlanInput,
) -> (at: (int, int))
    ensures
        ({
            let es = planning::chain(lines, lines.len());
            let p = planning::plan_of_window(lines, window_start, input);
            let (m, i) = at;
            if m < 0 {
                &&& p.cursor_offset == window_start
                &&& p.interactions.len() == 0
            } else {
                &&& 0 <= m < es.len()
                &&& 0 <= i < lines.len()
                &&& lines[i] == LineModel::Entry(es[m])
                &&& planning::chain(lines, i as nat) == es.take(m)
                &&& p.cursor_offset == es[m].offset
                &&& p.interactions.len() > 0
            }
        }),
{
    let es = planning::chain(lines, lines.len());
    let keys = planning::group_keys(es, es.len());
    let q = lemma_last_closed(es, keys, keys.len(), input, plan_start(lines, window_start));
    if q < 0 {
        (-1, -1)
    } else {
        assert(keys.contains(keys[q]));
        planning::lemma_members_exist(es, keys[q], es.len());
        planning::lemma_members_valid(es, keys[q], es.len());
        let m = planning::group_members(es, keys[q], es.len())[0];
        let i = lemma_line_of(lines, lines.len(), m);
        (m, i)
    }
}

/// A complete response is planned.
proof fn lemma_closed_is_planned(
    es: Seq<ChainModel>,
    keys: Seq<Seq<char>>,
    n: nat,
    input: PlanInput,
    start: PlanOutcome,
    t: int,
) -> (i: int)
    requires
        0 <= t < n <= keys.len(),
        start.interactions.len() == 0,
        planning::response_closed(es, keys[t], input.final_mode),
    ensures
        0 <= i < planning::planned_through(es, keys, n, input, start).interactions.len(),
        planning::planned_through(es, keys, n, input, start).interactions[i].id
            == planning::response_id(input.harness@, input.session_id@, keys[t]),
    decreases n,
{
    let before = planning::planned_through(es, keys, (n - 1) as nat, input, start);
    if t == n - 1 {
        before.interactions.len() as int
    } else {
        lemma_closed_is_planned(es, keys, (n - 1) as nat, input, start, t)
    }
}

/// Planning from the cursor on: only what was planned before, and a cursor that
/// stands where it stood or behind it.
proof fn lemma_plan_again(
    a: Seq<LineModel>,
    b: Seq<LineModel>,
    window_start: u64,
    input: PlanInput,
    again: PlanInput,
    m: int,
)
    requires
        same_session(input, again),
        ({
            let lines = a + b;
            let es = planning::chain(lines, lines.len());
            let p = planning::plan_of_window(lines, window_start, input);
            &&& 0 <= m < es.len()
            &&& planning::chain(a, a.len()) == es.take(m)
            &&& p.cursor_offset == es[m].offset
            &&& split_are_planned(es, planning::chain(b, b.len()), p.cursor_offset, input.final_mode)
            &&& forall|j: int| 0 <= j < m ==> (#[trigger] es[j]).offset < es[m].offset
            &&& forall|j: int| m < j < es.len() ==> (#[trigger] es[j]).offset > es[m].offset
            &&& p.interactions.len() > 0
        }),
    ensures
        ({
            let p = planning::plan_of_window(a + b, window_start, input);
            let p2 = planning::plan_of_window(b, p.cursor_offset, again);
            &&& p2.cursor_offset >= p.cursor_offset
            &&& split_stay_open(
                planning::chain(a + b, (a + b).len()),
                planning::chain(b, b.len()),
                p.cursor_offset,
                input.final_mode,
            ) ==> p2.cursor_offset == p.cursor_offset
            &&& forall|i: int|
                0 <= i < p2.interactions.len() ==> exists|j: int|
                    0 <= j < p.interactions.len() && (#[trigger] p.interactions[j]).id == (
                    #[trigger] p2.interactions[i]).id
        }),
{
    let lines = a + b;
    let es = planning::chain(lines, lines.len());
    let ea = planning::chain(a, a.len());
    let eb = planning::chain(b, b.len());
    lemma_chain_joined(a, b, b.len());
    assert(es == ea + eb);
    assert(ea.len() == m);
    assert(eb[0] == es[m]);
    let keys = planning::group_keys(es, es.len());
    let start = plan_start(lines, window_start);
    let q = lemma_last_closed(es, keys, keys.len(), input, start);
    let p = planning::plan_of_window(lines, window_start, input);
    assert(q >= 0);
    assert(keys.contains(keys[q]));
    planning::lemma_members_exist(es, keys[q], es.len());
    planning::lemma_members_valid(es, keys[q], es.len());
    planning::lemma_members_keyed(es, keys[q], es.len());
    let first = planning::group_members(es, keys[q], es.len())[0];
    assert(p.cursor_offset == es[first].offset);
    assert(first == m);
    assert(planning::response_key(es[m]) == Some(keys[q]));
    let ka = planning::group_keys(ea, ea.len());
    let kb = planning::group_keys(eb, eb.len());
    lemma_keys_front(ea, eb, ea.len());
    lemma_first_is_least(es, keys[q], es.len());
    if ka.contains(keys[q]) {
        lemma_key_stands(ea, ea.len(), keys[q]);
        let j = choose|j: int|
            0 <= j < ea.len() && planning::response_key(#[trigger] ea[j]) == Some(keys[q]);
        assert(es[j] == ea[j]);
    }
    let head = planning::group_keys(es, (m + 1) as nat);
    assert(head == ka.push(keys[q]));
    lemma_keys_prefix(es, (m + 1) as nat, es.len());
    assert(head[ka.len() as int] == keys[ka.len() as int]);
    if q != ka.len() {
        if q < ka.len() {
            planning::lemma_keys_differ(es, es.len(), q, ka.len() as int);
        } else {
            planning::lemma_keys_differ(es, es.len(), ka.len() as int, q);
        }
    }
    assert(q == ka.len());
    lemma_first_key(eb, eb.len());
    assert(kb[0] == keys[q]);
    assert forall|r: int|
        0 <= r < kb.len() && planning::response_closed(
            eb,
            #[trigger] kb[r],
            again.final_mode,
        ) implies planning::response_closed(es, kb[r], input.final_mode) && keys.contains(kb[r]) by {
        assert(kb.contains(kb[r]));
        lemma_key_stands(eb, eb.len(), kb[r]);
        let x = choose|x: int|
            0 <= x < eb.len() && planning::response_key(#[trigger] eb[x]) == Some(kb[r]);
        assert(es[m + x] == eb[x]);
        lemma_key_found(es, es.len(), m + x);
        if exists|j: int|
            0 <= j < ea.len() && planning::response_key(#[trigger] ea[j]) == Some(kb[r]) {
            let j = choose|j: int|
                0 <= j < ea.len() && planning::response_key(#[trigger] ea[j]) == Some(kb[r]);
            assert(es[j] == ea[j]);
            assert(es[j].offset < p.cursor_offset);
        } else {
            lemma_closed_behind(ea, eb, kb[r], again.final_mode);
        }
    }
    let start2 = plan_start(b, p.cursor_offset);
    let q2 = lemma_last_closed(eb, kb, kb.len(), again, start2);
    let p2 = planning::plan_of_window(b, p.cursor_offset, again);
    if q2 >= 0 {
        assert(kb.contains(kb[q2]));
        planning::lemma_members_exist(eb, kb[q2], eb.len());
        planning::lemma_members_valid(eb, kb[q2], eb.len());
        let x = planning::group_members(eb, kb[q2], eb.len())[0];
        assert(p2.cursor_offset == eb[x].offset);
        assert(es[m + x] == eb[x]);
    }
    if q2 > 0 && split_stay_open(es, eb, p.cursor_offset, input.final_mode) {
        let key = kb[q2];
        assert(kb.contains(key));
        assert forall|j: int| 0 <= j < ea.len() implies planning::response_key(#[trigger] ea[j])
            != Some(key) by {
            assert(es[j] == ea[j]);
            assert(es[j].offset < p.cursor_offset);
        }
        let t = keys.index_of(key);
        assert(keys[t] == key);
        if t > q {
            assert(!planning::response_closed(es, keys[t], input.final_mode));
        } else if t == q {
            planning::lemma_keys_differ(eb, eb.len(), 0, q2);
        } else {
            assert(head[t] == keys[t]);
            assert(ka[t] == key);
            assert(ka.contains(key));
            lemma_key_stands(ea, ea.len(), key);
        }
        assert(false);
    }
    if q2 == 0 {
        lemma_first_member(eb, kb[0], eb.len());
    }
    assert forall|i: int| 0 <= i < p2.interactions.len() implies exists|j: int|
        0 <= j < p.interactions.len() && (#[trigger] p.interactions[j]).id == (
        #[trigger] p2.interactions[i]).id by {
        let r = lemma_planned_is_closed(eb, kb, kb.len(), again, start2, i);
        assert(planning::response_closed(eb, kb[r], again.final_mode));
        let t = keys.index_of(kb[r]);
        let j = lemma_closed_is_planned(es, keys, keys.len(), input, start, t);
        assert(p.interactions[j].id == p2.interactions[i].id);
    }
}

/// The first entry, if it belongs to a response, belongs to the first one.
proof fn lemma_first_key(es: Seq<ChainModel>, n: nat)
    requires
        0 < n <= es.len(),
        planning::response_key(es[0]) is Some,
    ensures
        planning::group_keys(es, n).len() > 0,
        planning::group_keys(es, n)[0] == planning::response_key(es[0])->0,
    decreases n,
{
    if n > 1 {
        lemma_first_key(es, (n - 1) as nat);
    } else {
        assert(planning::group_keys(es, 0).len() == 0);
    }
}

proof fn lemma_first_member(es: Seq<ChainModel>, key: Seq<char>, n: nat)
    requires
        0 < n <= es.len(),
        planning::response_key(es[0]) == Some(key),
    ensures
        planning::group_members(es, key, n).len() > 0,
        planning::group_members(es, key, n)[0] == 0,
    decreases n,
{
    if n > 1 {
        lemma_first_member(es, key, (n - 1) as nat);
    } else {
        assert(planning::group_members(es, key, 0).len() == 0);
    }
}

/// No response that has entries before the byte is complete by the entries `rest`,
/// those that are read from the byte on, alone.
pub open spec fn split_stay_open(
    es: Seq<ChainModel>,
    rest: Seq<ChainModel>,
    cursor: u64,
    final_mode: bool,
) -> bool {
    forall|j: int|
        0 <= j < es.len() && (#[trigger] es[j]).offset < cursor && planning::response_key(
            es[j],
        ) is Some && planning::group_keys(rest, rest.len()).contains(
            planning::response_key(es[j])->0,
        ) ==> !planning::response_closed(rest, planning::response_key(es[j])->0, final_mode)
}

/// Every response that has entries before the byte and is complete by the entries
/// `rest`, those that are read from the byte on, alone is complete by all its entries,
/// too.
pub open spec fn split_are_planned(
    es: Seq<ChainModel>,
    rest: Seq<ChainModel>,
    cursor: u64,
    final_mode: bool,
) -> bool {
    forall|j: int|
        0 <= j < es.len() && (#[trigger] es[j]).offset < cursor && planning::response_key(
            es[j],
        ) is Some && planning::group_keys(rest, rest.len()).contains(
            planning::response_key(es[j])->0,
        ) && planning::response_closed(rest, planning::response_key(es[j])->0, final_mode)
            ==> planning::response_closed(es, planning::response_key(es[j])->0, final_mode)
}

/// The entries on the two sides of a cut lie on its two sides in the file.
proof fn lemma_sides(
    a: Seq<u8>,
    b: Seq<u8>,
    ra: Seq<Result<RawModel, Seq<char>>>,
    rb: Seq<Result<RawModel, Seq<char>>>,
    base: int,
    session: Seq<char>,
)
    requires
        0 <= base,
        base + a.len() + b.len() <= u64::MAX,
        transcript::read_lines(a, ra, base, session, 0, 0, transcript::empty_window()) is Ok,
        transcript::read_lines(
            b,
            rb,
            base + a.len(),
            session,
            0,
            0,
            transcript::empty_window(),
        ) is Ok,
    ensures
        ({
            let wa = transcript::read_lines(
                a,
                ra,
                base,
                session,
                0,
                0,
                transcript::empty_window(),
            )->Ok_0;
            let wb = transcript::read_lines(
                b,
                rb,
                base + a.len(),
                session,
                0,
                0,
                transcript::empty_window(),
            )->Ok_0;
            let ea = planning::chain(wa.lines, wa.lines.len());
            let eb = planning::chain(wb.lines, wb.lines.len());
            &&& forall|j: int| 0 <= j < ea.len() ==> (#[trigger] ea[j]).offset < base + a.len()
            &&& forall|j: int| 0 < j < eb.len() ==> (#[trigger] eb[j]).offset > base + a.len()
        }),
{
    let none = transcript::empty_window();
    let wa = transcript::read_lines(a, ra, base, session, 0, 0, none)->Ok_0;
    let wb = transcript::read_lines(b, rb, base + a.len(), session, 0, 0, none)->Ok_0;
    let ea = planning::chain(wa.lines, wa.lines.len());
    let eb = planning::chain(wb.lines, wb.lines.len());
    lemma_line_offsets(a, ra, base, session, 0, 0, none);
    lemma_line_offsets(b, rb, base + a.len(), session, 0, 0, none);
    assert forall|j: int| 0 <= j < ea.len() implies (#[trigger] ea[j]).offset < base + a.len() by {
        let i = lemma_line_of(wa.lines, wa.lines.len(), j);
        assert(wa.lines[i] == LineModel::Entry(ea[j]));
        lemma_line_begins(a, 0, i);
    }
    assert forall|j: int| 0 < j < eb.len() implies (#[trigger] eb[j]).offset > base + a.len() by {
        let i = lemma_line_of(wb.lines, wb.lines.len(), j);
        assert(wb.lines[i] == LineModel::Entry(eb[j]));
        lemma_line_begins(b, 0, i);
        let s = transcript::line_spans(b, 0)[i].0;
        assert(i > 0) by {
            if i == 0 {
                assert(planning::chain(wb.lines, 0).len() == 0);
                assert(eb.take(j).len() == j);
            }
        }
        assert(s > 0) by {
            if s == 0 {
                assert(b.take(0).len() == 0);
                assert(transcript::line_spans(b.take(0), 0).len() == 0);
            }
        }
    }
}

/// The second read of a transcript that nothing was added to: the bytes from the
/// cursor on, with the fields of their lines.
pub open spec fn read_again(
    bytes: Seq<u8>,
    raws: Seq<Result<RawModel, Seq<char>>>,
    base: int,
    session: Seq<char>,
    cursor: u64,
) -> Result<WindowModel, TranscriptFault> {
    let at = cursor - base;
    transcript::read_lines(
        bytes.skip(at),
        raws.skip(transcript::line_spans(bytes.take(at), 0).len() as int),
        cursor as int,
        session,
        0,
        0,
        transcript::empty_window(),
    )
}

/// The entries before the cut lie before the one that begins there, the others
/// behind it.
proof fn lemma_cut_entries(a: Seq<LineModel>, b: Seq<LineModel>, m: int, cursor: u64)
    requires
        ({
            let es = planning::chain(a + b, (a + b).len());
            let ea = planning::chain(a, a.len());
            let eb = planning::chain(b, b.len());
            &&& 0 <= m < es.len()
            &&& ea == es.take(m)
            &&& es[m].offset == cursor
            &&& forall|j: int| 0 <= j < ea.len() ==> (#[trigger] ea[j]).offset < cursor
            &&& forall|j: int| 0 < j < eb.len() ==> (#[trigger] eb[j]).offset > cursor
        }),
    ensures
        ({
            let es = planning::chain(a + b, (a + b).len());
            &&& forall|j: int| 0 <= j < m ==> (#[trigger] es[j]).offset < es[m].offset
            &&& forall|j: int| m < j < es.len() ==> (#[trigger] es[j]).offset > es[m].offset
        }),
{
    let es = planning::chain(a + b, (a + b).len());
    let ea = planning::chain(a, a.len());
    let eb = planning::chain(b, b.len());
    lemma_chain_joined(a, b, b.len());
    assert(es == ea + eb);
    assert(ea.len() == m);
    assert forall|j: int| 0 <= j < m implies (#[trigger] es[j]).offset < es[m].offset by {
        assert(es[j] == ea[j]);
    }
    assert forall|j: int| m < j < es.len() implies (#[trigger] es[j]).offset > es[m].offset by {
        assert(es[j] == eb[j - m]);
    }
}

/// What a first read gives.
spec fn first_lines(
    bytes: Seq<u8>,
    raws: Seq<Result<RawModel, Seq<char>>>,
    base: u64,
    session: Seq<char>,
) -> Seq<LineModel> {
    (transcript::read_lines(
        bytes,
        raws,
        base as int,
        session,
        0,
        0,
        transcript::empty_window(),
    )->Ok_0).lines
}

/// Cutting a transcript where the line `i` begins: what each part gives.
proof fn lemma_cut_at_line(
    bytes: Seq<u8>,
    raws: Seq<Result<RawModel, Seq<char>>>,
    base: u64,
    session: Seq<char>,
    i: int,
    at: int,
) -> (parts: (Seq<LineModel>, Seq<LineModel>))
    requires
        base + bytes.len() <= u64::MAX,
        raws.len() == transcript::line_spans(bytes, 0).len(),
        transcript::read_lines(
            bytes,
            raws,
            base as int,
            session,
            0,
            0,
            transcript::empty_window(),
        ) is Ok,
        0 <= i < transcript::line_spans(bytes, 0).len(),
        at == transcript::line_spans(bytes, 0)[i].0,
    ensures
        0 <= at < bytes.len(),
        at == 0 || bytes[at - 1] == 10,
        first_lines(bytes, raws, base, session) == parts.0 + parts.1,
        parts.0.len() == i,
        read_again(bytes, raws, base as int, session, (base + at) as u64) is Ok,
        (read_again(bytes, raws, base as int, session, (base + at) as u64)->Ok_0).lines == parts.1,
        ({
            let ea = planning::chain(parts.0, parts.0.len());
            let eb = planning::chain(parts.1, parts.1.len());
            &&& forall|j: int| 0 <= j < ea.len() ==> (#[trigger] ea[j]).offset < base + at
            &&& forall|j: int| 0 < j < eb.len() ==> (#[trigger] eb[j]).offset > base + at
        }),
{
    let none = transcript::empty_window();
    lemma_line_begins(bytes, 0, i);
    let a = bytes.take(at);
    let b = bytes.skip(at);
    let ra = raws.take(i);
    let rb = raws.skip(i);
    assert(a + b =~= bytes);
    assert(ra + rb =~= raws);
    assert(transcript::ends_a_line(a)) by {
        if at > 0 {
            assert(a.last() == bytes[at - 1]);
        }
    }
    lemma_front_is_read(a, b, ra, rb, base as int, session, 0, 0, none);
    transcript::law_window_reads_in_parts(a, b, ra, rb, base as int, session);
    let wa = transcript::read_lines(a, ra, base as int, session, 0, 0, none)->Ok_0;
    let wb = transcript::read_lines(b, rb, base + a.len(), session, 0, 0, none)->Ok_0;
    lemma_sides(a, b, ra, rb, base as int, session);
    (wa.lines, wb.lines)
}

/// Ingesting a transcript a second time changes nothing. The cursor that the
/// first run left stands behind a line feed. Reading from it succeeds and plans
/// nothing that the first run did not plan. What the first run planned is recorded
/// or suppressed; a row that is left is one of a suppressed interaction, which the
/// store passes over again. The cursor stays where it is, unless a response with
/// entries before it is complete by its entries behind it alone: then it moves on to
/// them. Left out are transcripts in which such a response was still pending by all
/// its entries: the second run would record it.
#[verifier::rlimit(40)]
pub proof fn law_second_ingest_changes_nothing(
    bytes: Seq<u8>,
    raws: Seq<Result<RawModel, Seq<char>>>,
    base: u64,
    session: Seq<char>,
    input: PlanInput,
    again: PlanInput,
    known: Set<Seq<char>>,
    suppressed: Set<Seq<char>>,
)
    requires
        base + bytes.len() <= u64::MAX,
        raws.len() == transcript::line_spans(bytes, 0).len(),
        transcript::read_lines(
            bytes,
            raws,
            base as int,
            session,
            0,
            0,
            transcript::empty_window(),
        ) is Ok,
        same_session(input, again),
        ({
            let lines = (transcript::read_lines(
                bytes,
                raws,
                base as int,
                session,
                0,
                0,
                transcript::empty_window(),
            )->Ok_0).lines;
            let p = planning::plan_of_window(lines, base, input);
            let rest = (read_again(bytes, raws, base as int, session, p.cursor_offset)->Ok_0).lines;
            &&& split_are_planned(
                planning::chain(lines, lines.len()),
                planning::chain(rest, rest.len()),
                p.cursor_offset,
                input.final_mode,
            )
            &&& forall|i: int|
                0 <= i < p.interactions.len() ==> known.contains(
                    (#[trigger] p.interactions[i]).id.text(),
                ) || suppressed.contains(p.interactions[i].id.text())
        }),
    ensures
        ({
            let lines = (transcript::read_lines(
                bytes,
                raws,
                base as int,
                session,
                0,
                0,
                transcript::empty_window(),
            )->Ok_0).lines;
            let p = planning::plan_of_window(lines, base, input);
            let at = p.cursor_offset - base;
            let second = read_again(bytes, raws, base as int, session, p.cursor_offset);
            let p2 = planning::plan_of_window(second->Ok_0.lines, p.cursor_offset, again);
            &&& 0 <= at <= bytes.len()
            &&& at == 0 || bytes[at - 1] == 10
            &&& second is Ok
            &&& p2.cursor_offset >= p.cursor_offset
            &&& split_stay_open(
                planning::chain(lines, lines.len()),
                planning::chain(second->Ok_0.lines, second->Ok_0.lines.len()),
                p.cursor_offset,
                input.final_mode,
            ) ==> p2.cursor_offset == p.cursor_offset
            &&& forall|i: int|
                0 <= i < p2.interactions.len() ==> exists|j: int|
                    0 <= j < p.interactions.len() && (#[trigger] p.interactions[j]).id == (
                    #[trigger] p2.interactions[i]).id
            &&& ingest::all_suppressed(
                ingest::new_rows(p2.interactions, session, known, p2.interactions.len()),
                suppressed,
            )
        }),
{
    let none = transcript::empty_window();
    let w = transcript::read_lines(bytes, raws, base as int, session, 0, 0, none)->Ok_0;
    let lines = w.lines;
    let es = planning::chain(lines, lines.len());
    let p = planning::plan_of_window(lines, base, input);
    let at = p.cursor_offset - base;
    let (m, i) = lemma_cursor_entry(lines, base, input);
    if m < 0 {
        assert(bytes.skip(0) =~= bytes);
        assert(bytes.take(0).len() == 0);
        assert(transcript::line_spans(bytes.take(0), 0).len() == 0);
        assert(raws.skip(0) =~= raws);
        let keys = planning::group_keys(es, es.len());
        let start = plan_start(lines, base);
        let q = lemma_last_closed(es, keys, keys.len(), input, start);
        let q2 = lemma_last_closed(es, keys, keys.len(), again, start);
        if q2 >= 0 {
            assert(!planning::response_closed(es, keys[q2], input.final_mode));
        }
    } else {
        lemma_line_offsets(bytes, raws, base as int, session, 0, 0, none);
        assert(lines[i] == LineModel::Entry(es[m]));
        assert(at == transcript::line_spans(bytes, 0)[i].0);
        let (la, lb) = lemma_cut_at_line(bytes, raws, base, session, i, at);
        assert((base + at) as u64 == p.cursor_offset);
        lemma_chain_front(la, lb, i as nat);
        lemma_cut_entries(la, lb, m, p.cursor_offset);
        lemma_plan_again(la, lb, base, input, again, m);
        let p2 = planning::plan_of_window(lb, p.cursor_offset, again);
        assert forall|x: int| 0 <= x < p2.interactions.len() implies known.contains(
            (#[trigger] p2.interactions[x]).id.text(),
        ) || suppressed.contains(p2.interactions[x].id.text()) by {
            let j = choose|j: int|
                0 <= j < p.interactions.len() && (#[trigger] p.interactions[j]).id
                    == p2.interactions[x].id;
            assert(p.interactions[j].id == p2.interactions[x].id);
        }
        ingest::law_ingest_is_idempotent(
            p2.interactions,
            session,
            known,
            suppressed,
            p2.interactions.len(),
        );
    }
}

} // verus!
