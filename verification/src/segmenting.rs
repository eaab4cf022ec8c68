//! Which commits and which interactions are put together, and what of a plan is
//! recorded.

use crate::ingest;
use crate::ingest::CaptureRowModel;
use crate::keeping;
use crate::links;
use crate::models::{InteractionId, Timestamp};
use crate::planning;
use crate::planning::PlannedModel;
use crate::text;
use crate::transcript::{Entry, LineModel};
use vstd::prelude::*;

verus! {

proof fn lemma_time_order_holds_all<T>(s: Seq<(T, i64)>, n: nat)
    requires
        n <= s.len(),
    ensures
        links::by_time(s, n).to_multiset() == s.take(n as int).to_multiset(),
        links::by_time(s, n).len() == n,
    decreases n,
{
    broadcast use vstd::seq_lib::group_to_multiset_ensures;

    if n > 0 {
        lemma_time_order_holds_all(s, (n - 1) as nat);
        let before = links::by_time(s, (n - 1) as nat);
        let at = links::time_slot(before, s[n - 1].1, 0);
        lemma_slot_within(before, s[n - 1].1, 0);
        let x = s[n - 1];
        assert(s.take(n as int) =~= s.take(n - 1).push(x));
        assert(before.insert(at, x).to_multiset() == before.to_multiset().insert(x));
        assert(s.take(n - 1).push(x).to_multiset() == s.take(n - 1).to_multiset().insert(x));
    } else {
        assert(s.take(0) =~= links::by_time(s, 0));
    }
}

proof fn lemma_slot_within<T>(s: Seq<(T, i64)>, time: i64, k: int)
    requires
        0 <= k <= s.len(),
    ensures
        k <= links::time_slot(s, time, k) <= s.len(),
    decreases s.len() - k,
{
    if k < s.len() && s[k].1 <= time {
        lemma_slot_within(s, time, k + 1);
    }
}

/// What is taken in the order of its times is exactly what was given.
pub proof fn law_time_order_holds_all<T>(s: Seq<(T, i64)>)
    ensures
        links::by_time(s, s.len()).to_multiset() == s.to_multiset(),
        forall|x: (T, i64)| links::by_time(s, s.len()).contains(x) <==> s.contains(x),
{
    broadcast use vstd::seq_lib::group_to_multiset_ensures;

    lemma_time_order_holds_all(s, s.len());
    assert(s.take(s.len() as int) =~= s);
    assert forall|x: (T, i64)| links::by_time(s, s.len()).contains(x) <==> s.contains(x) by {
        assert(links::by_time(s, s.len()).to_multiset().count(x) == s.to_multiset().count(x));
    }
}

/// A commit is verified exactly where a response reported it at a time that is neither
/// more than the tolerance ahead of now nor more than it before the response; no
/// commit is listed twice, and the earlier stands first.
pub proof fn law_verified_is_what_was_reported(
    rs: Seq<(i64, Option<(Seq<char>, i64)>)>,
    now: i64,
)
    ensures
        ({
            let found = links::verified(rs, now, rs.len());
            let out = links::by_time(found, found.len());
            &&& forall|i: int|
                0 <= i < rs.len() && (#[trigger] rs[i]).1 is Some && (rs[i].1->0).1 <= now + 300
                    && (rs[i].1->0).1 >= rs[i].0 - 300 ==> exists|k: int|
                    0 <= k < out.len() && (#[trigger] out[k]).0 == (rs[i].1->0).0
            &&& forall|c: (Seq<char>, i64)| #[trigger]
                out.contains(c) ==> exists|i: int|
                    0 <= i < rs.len() && (#[trigger] rs[i]).1 == Some(c) && c.1 <= now + 300 && c.1
                        >= rs[i].0 - 300
            &&& forall|a: int, b: int|
                0 <= a < b < out.len() ==> (#[trigger] out[a]).0 != (#[trigger] out[b]).0
                    && out[a].1 <= out[b].1
        }),
{
    let found = links::verified(rs, now, rs.len());
    let out = links::by_time(found, found.len());
    lemma_verified(rs, now, rs.len());
    law_time_order_holds_all(found);
    lemma_time_order_holds_all(found, found.len());
    assert forall|i: int|
        0 <= i < rs.len() && (#[trigger] rs[i]).1 is Some && (rs[i].1->0).1 <= now + 300 && (
        rs[i].1->0).1 >= rs[i].0 - 300 implies exists|k: int|
        0 <= k < out.len() && (#[trigger] out[k]).0 == (rs[i].1->0).0 by {
        let k = choose|k: int| 0 <= k < found.len() && (#[trigger] found[k]).0 == (rs[i].1->0).0;
        assert(found.contains(found[k]));
        assert(out.contains(found[k]));
        let m = choose|m: int| 0 <= m < out.len() && out[m] == found[k];
        assert(out[m].0 == (rs[i].1->0).0);
    }
    assert forall|c: (Seq<char>, i64)| #[trigger] out.contains(c) implies exists|i: int|
        0 <= i < rs.len() && (#[trigger] rs[i]).1 == Some(c) && c.1 <= now + 300 && c.1 >= rs[i].0
            - 300 by {
        assert(found.contains(c));
    }
    assert forall|a: int, b: int| 0 <= a < b < out.len() implies (#[trigger] out[a]).0 != (
    #[trigger] out[b]).0 && out[a].1 <= out[b].1 by {
        links::law_taken_in_order(found, found.len(), a, b);
        lemma_apart(found, out, a, b);
    }
}

proof fn lemma_apart(found: Seq<(Seq<char>, i64)>, out: Seq<(Seq<char>, i64)>, a: int, b: int)
    requires
        found.to_multiset() == out.to_multiset(),
        forall|i: int, j: int|
            0 <= i < j < found.len() ==> (#[trigger] found[i]).0 != (#[trigger] found[j]).0,
        0 <= a < b < out.len(),
    ensures
        out[a].0 != out[b].0,
{
    broadcast use vstd::seq_lib::group_to_multiset_ensures;

    let x = out[a];
    let y = out[b];
    if x.0 == y.0 {
        assert(out.to_multiset().count(x) > 0);
        assert(out.to_multiset().count(y) > 0);
        assert(found.contains(x) && found.contains(y));
        let i = choose|i: int| 0 <= i < found.len() && found[i] == x;
        let j = choose|j: int| 0 <= j < found.len() && found[j] == y;
        if i < j {
            assert(found[i].0 != found[j].0);
        } else if j < i {
            assert(found[j].0 != found[i].0);
        }
        assert(x == y);
        assert(found.no_duplicates()) by {
            assert forall|p: int, q: int|
                0 <= p < found.len() && 0 <= q < found.len() && p != q implies found[p]
                != found[q] by {
                if p < q {
                    assert(found[p].0 != found[q].0);
                } else {
                    assert(found[q].0 != found[p].0);
                }
            }
        }
        found.lemma_multiset_has_no_duplicates();
        assert(found.to_multiset().count(x) == 1);
        let rest = out.remove(a);
        assert(rest[b - 1] == x);
        assert(rest.contains(x));
        assert(out =~= rest.insert(a, x));
        assert(rest.insert(a, x).to_multiset() == rest.to_multiset().insert(x));
        assert(rest.to_multiset().count(x) > 0);
        assert(false);
    }
}

proof fn lemma_verified(rs: Seq<(i64, Option<(Seq<char>, i64)>)>, now: i64, n: nat)
    requires
        n <= rs.len(),
    ensures
        ({
            let found = links::verified(rs, now, n);
            &&& forall|i: int|
                0 <= i < n && (#[trigger] rs[i]).1 is Some && (rs[i].1->0).1 <= now + 300 && (
                rs[i].1->0).1 >= rs[i].0 - 300 ==> exists|k: int|
                    0 <= k < found.len() && (#[trigger] found[k]).0 == (rs[i].1->0).0
            &&& forall|c: (Seq<char>, i64)| #[trigger]
                found.contains(c) ==> exists|i: int|
                    0 <= i < n && (#[trigger] rs[i]).1 == Some(c) && c.1 <= now + 300 && c.1
                        >= rs[i].0 - 300
            &&& forall|a: int, b: int|
                0 <= a < b < found.len() ==> (#[trigger] found[a]).0 != (#[trigger] found[b]).0
        }),
    decreases n,
{
    if n > 0 {
        lemma_verified(rs, now, (n - 1) as nat);
        let before = links::verified(rs, now, (n - 1) as nat);
        let found = links::verified(rs, now, n);
        assert forall|k: int| 0 <= k < before.len() implies found[k] == before[k] by {}
        assert forall|i: int|
            0 <= i < n && (#[trigger] rs[i]).1 is Some && (rs[i].1->0).1 <= now + 300 && (
            rs[i].1->0).1 >= rs[i].0 - 300 implies exists|k: int|
            0 <= k < found.len() && (#[trigger] found[k]).0 == (rs[i].1->0).0 by {
            let c = rs[i].1->0;
            if i < n - 1 {
                let k = choose|k: int| 0 <= k < before.len() && (#[trigger] before[k]).0 == c.0;
                assert(found[k].0 == c.0);
            } else if exists|k: int| 0 <= k < before.len() && (#[trigger] before[k]).0 == c.0 {
                let k = choose|k: int| 0 <= k < before.len() && (#[trigger] before[k]).0 == c.0;
                assert(found[k].0 == c.0);
            } else {
                assert(found[before.len() as int].0 == c.0);
            }
        }
        assert forall|c: (Seq<char>, i64)| #[trigger] found.contains(c) implies exists|i: int|
            0 <= i < n && (#[trigger] rs[i]).1 == Some(c) && c.1 <= now + 300 && c.1 >= rs[i].0
                - 300 by {
            let k = choose|k: int| 0 <= k < found.len() && found[k] == c;
            if k < before.len() {
                assert(before[k] == c);
                assert(before.contains(c));
                let i = choose|i: int|
                    0 <= i < n - 1 && (#[trigger] rs[i]).1 == Some(c) && c.1 <= now + 300 && c.1
                        >= rs[i].0 - 300;
                assert(rs[i].1 == Some(c));
            } else {
                assert(rs[n - 1].1 == Some(c));
            }
        }
    }
}

proof fn lemma_claimed(
    floating: Seq<(InteractionId, i64)>,
    commits: Seq<(Seq<char>, i64)>,
    k: int,
    n: nat,
)
    requires
        n <= floating.len(),
    ensures
        links::claimed(floating, commits, k, n) == floating.take(n as int).filter(
            |f: (InteractionId, i64)| links::claims(commits, k, f.1),
        ).map_values(|f: (InteractionId, i64)| f.0),
    decreases n,
{
    reveal(Seq::filter);
    let keep = |f: (InteractionId, i64)| links::claims(commits, k, f.1);
    let id = |f: (InteractionId, i64)| f.0;
    let now = floating.take(n as int);
    if n > 0 {
        lemma_claimed(floating, commits, k, (n - 1) as nat);
        let was = floating.take(n - 1);
        assert(now.drop_last() =~= was);
        assert(now.last() == floating[n - 1]);
        assert(was.filter(keep).push(floating[n - 1]).map_values(id) =~= was.filter(
            keep,
        ).map_values(id).push(floating[n - 1].0));
    } else {
        assert(now.filter(keep).map_values(id) =~= Seq::empty());
    }
}

/// A floating interaction goes to the first of the commits that is not earlier than
/// it, and every commit gets those and no others.
pub proof fn law_interaction_goes_to_the_next_commit(
    floating: Seq<(InteractionId, i64)>,
    commits: Seq<(Seq<char>, i64)>,
    k: int,
)
    requires
        0 <= k < commits.len(),
    ensures
        ({
            let sorted = links::by_time(floating, floating.len());
            let got = links::claimed(sorted, commits, k, floating.len());
            &&& got == sorted.filter(
                |f: (InteractionId, i64)|
                    f.1 <= commits[k].1 && forall|j: int|
                        0 <= j < k ==> (#[trigger] commits[j]).1 < f.1,
            ).map_values(|f: (InteractionId, i64)| f.0)
            &&& forall|i: int|
                0 <= i < floating.len() && (#[trigger] floating[i]).1 <= commits[k].1 && (forall|
                    j: int,
                |
                    0 <= j < k ==> (#[trigger] commits[j]).1 < floating[i].1) ==> got.contains(
                    floating[i].0,
                )
            &&& forall|x: InteractionId| #[trigger]
                got.contains(x) ==> exists|i: int|
                    0 <= i < floating.len() && (#[trigger] floating[i]).0 == x && floating[i].1
                        <= commits[k].1 && forall|j: int|
                        0 <= j < k ==> (#[trigger] commits[j]).1 < floating[i].1
        }),
{
    let sorted = links::by_time(floating, floating.len());
    let got = links::claimed(sorted, commits, k, floating.len());
    lemma_time_order_holds_all(floating, floating.len());
    law_time_order_holds_all(floating);
    lemma_claimed(sorted, commits, k, floating.len());
    assert(sorted.take(floating.len() as int) =~= sorted);
    let keep = |f: (InteractionId, i64)| links::claims(commits, k, f.1);
    let own = |f: (InteractionId, i64)|
        f.1 <= commits[k].1 && forall|j: int| 0 <= j < k ==> (#[trigger] commits[j]).1 < f.1;
    assert(keep =~= own);
    keeping::lemma_filter_is_exact(sorted, own);
    let kept = sorted.filter(own);
    assert forall|i: int|
        0 <= i < floating.len() && (#[trigger] floating[i]).1 <= commits[k].1 && (forall|j: int|
            0 <= j < k ==> (#[trigger] commits[j]).1 < floating[i].1) implies got.contains(
        floating[i].0,
    ) by {
        assert(floating.contains(floating[i]));
        assert(sorted.contains(floating[i]));
        let m = choose|m: int| 0 <= m < sorted.len() && sorted[m] == floating[i];
        assert(own(sorted[m]));
        assert(kept.contains(sorted[m]));
        let q = choose|q: int| 0 <= q < kept.len() && kept[q] == sorted[m];
        assert(got[q] == floating[i].0);
    }
    assert forall|x: InteractionId| #[trigger] got.contains(x) implies exists|i: int|
        0 <= i < floating.len() && (#[trigger] floating[i]).0 == x && floating[i].1
            <= commits[k].1 && forall|j: int|
            0 <= j < k ==> (#[trigger] commits[j]).1 < floating[i].1 by {
        let m = choose|m: int| 0 <= m < got.len() && got[m] == x;
        assert(own(kept[m]));
        assert(sorted.contains(kept[m]));
        assert(floating.contains(kept[m]));
        let i = choose|i: int| 0 <= i < floating.len() && floating[i] == kept[m];
        assert(floating[i].0 == got[m]);
    }
}

/// Every planned interaction that is not recorded yet becomes a row, in its order and
/// with everything that was planned of it; it keeps its parent where that is recorded
/// or becomes a row before it.
pub proof fn law_everything_new_is_recorded(
    planned: Seq<PlannedModel>,
    session: Seq<char>,
    known: Set<Seq<char>>,
)
    ensures
        ({
            let rows = ingest::new_rows(planned, session, known, planned.len());
            let fresh = planned.filter(|p: PlannedModel| !known.contains(p.id.text()));
            &&& rows.len() == fresh.len()
            &&& forall|i: int|
                0 <= i < rows.len() ==> {
                    let p = fresh[i];
                    let x = (#[trigger] rows[i]).interaction;
                    &&& x.id == p.id
                    &&& x.conversation_id == session
                    &&& x.timestamp == p.timestamp
                    &&& x.author == p.author
                    &&& x.user_prompt == p.user_prompt
                    &&& x.model_name == p.model_name
                    &&& x.model_cot == p.model_cot
                    &&& x.model_response == p.model_response
                    &&& x.source_request_id == Some(p.response_key)
                    &&& rows[i].context_items == p.context_items
                    &&& rows[i].tool_executions == p.tool_executions
                    &&& match p.parent_id {
                        None => x.parent_id is None,
                        Some(q) => if known.contains(q.text()) || exists|j: int|
                            0 <= j < i && (#[trigger] fresh[j]).id.text() == q.text() {
                            x.parent_id == Some(q)
                        } else {
                            x.parent_id is None
                        },
                    }
                }
        }),
{
    lemma_rows(planned, session, known, planned.len());
    assert(planned.take(planned.len() as int) =~= planned);
}

spec fn row_holds(x: CaptureRowModel, p: PlannedModel, session: Seq<char>) -> bool {
    &&& x.interaction.id == p.id
    &&& x.interaction.conversation_id == session
    &&& x.interaction.timestamp == p.timestamp
    &&& x.interaction.author == p.author
    &&& x.interaction.user_prompt == p.user_prompt
    &&& x.interaction.model_name == p.model_name
    &&& x.interaction.model_cot == p.model_cot
    &&& x.interaction.model_response == p.model_response
    &&& x.interaction.source_request_id == Some(p.response_key)
    &&& x.context_items == p.context_items
    &&& x.tool_executions == p.tool_executions
}

proof fn lemma_rows(planned: Seq<PlannedModel>, session: Seq<char>, known: Set<Seq<char>>, n: nat)
    requires
        n <= planned.len(),
    ensures
        ({
            let rows = ingest::new_rows(planned, session, known, n);
            let fresh = planned.take(n as int).filter(
                |p: PlannedModel| !known.contains(p.id.text()),
            );
            let ids = ingest::batch_ids(planned, known, n);
            &&& rows.len() == fresh.len()
            &&& forall|x: Seq<char>|
                ids.contains(x) <==> exists|j: int|
                    0 <= j < fresh.len() && (#[trigger] fresh[j]).id.text() == x
            &&& forall|i: int|
                0 <= i < rows.len() ==> row_holds(#[trigger] rows[i], fresh[i], session)
                    && match fresh[i].parent_id {
                    None => rows[i].interaction.parent_id is None,
                    Some(q) => if known.contains(q.text()) || exists|j: int|
                        0 <= j < i && (#[trigger] fresh[j]).id.text() == q.text() {
                        rows[i].interaction.parent_id == Some(q)
                    } else {
                        rows[i].interaction.parent_id is None
                    },
                }
        }),
    decreases n,
{
    reveal(Seq::filter);
    let keep = |p: PlannedModel| !known.contains(p.id.text());
    let now = planned.take(n as int);
    if n > 0 {
        lemma_rows(planned, session, known, (n - 1) as nat);
        let was = planned.take(n - 1);
        let p = planned[n - 1];
        assert(now.drop_last() =~= was);
        assert(now.last() == p);
        let before = ingest::new_rows(planned, session, known, (n - 1) as nat);
        let rows = ingest::new_rows(planned, session, known, n);
        let old_fresh = was.filter(keep);
        let fresh = now.filter(keep);
        let old_ids = ingest::batch_ids(planned, known, (n - 1) as nat);
        let ids = ingest::batch_ids(planned, known, n);
        assert forall|j: int| 0 <= j < old_fresh.len() implies fresh[j] == old_fresh[j] by {}
        assert forall|x: Seq<char>| ids.contains(x) <==> exists|j: int|
            0 <= j < fresh.len() && (#[trigger] fresh[j]).id.text() == x by {
            if old_ids.contains(x) {
                let j = choose|j: int|
                    0 <= j < old_fresh.len() && (#[trigger] old_fresh[j]).id.text() == x;
                assert(fresh[j].id.text() == x);
            }
            if keep(p) && x == p.id.text() {
                assert(fresh[old_fresh.len() as int].id.text() == x);
            }
            if exists|j: int| 0 <= j < fresh.len() && (#[trigger] fresh[j]).id.text() == x {
                let j = choose|j: int|
                    0 <= j < fresh.len() && (#[trigger] fresh[j]).id.text() == x;
                if j < old_fresh.len() {
                    assert(old_fresh[j].id.text() == x);
                }
            }
        }
        assert forall|i: int| 0 <= i < rows.len() implies row_holds(
            #[trigger] rows[i],
            fresh[i],
            session,
        ) && match fresh[i].parent_id {
            None => rows[i].interaction.parent_id is None,
            Some(q) => if known.contains(q.text()) || exists|j: int|
                0 <= j < i && (#[trigger] fresh[j]).id.text() == q.text() {
                rows[i].interaction.parent_id == Some(q)
            } else {
                rows[i].interaction.parent_id is None
            },
        } by {
            if let Some(q) = fresh[i].parent_id {
                assert((exists|j: int| 0 <= j < i && (#[trigger] fresh[j]).id.text() == q.text())
                    <==> exists|j: int|
                    0 <= j < i && (#[trigger] old_fresh[j]).id.text() == q.text()) by {
                    if exists|j: int| 0 <= j < i && (#[trigger] fresh[j]).id.text() == q.text() {
                        let j = choose|j: int|
                            0 <= j < i && (#[trigger] fresh[j]).id.text() == q.text();
                        assert(old_fresh[j].id.text() == q.text());
                    }
                    if exists|j: int|
                        0 <= j < i && (#[trigger] old_fresh[j]).id.text() == q.text() {
                        let j = choose|j: int|
                            0 <= j < i && (#[trigger] old_fresh[j]).id.text() == q.text();
                        assert(fresh[j].id.text() == q.text());
                    }
                }
            }
            if i < before.len() {
                assert(rows[i] == before[i]);
                assert(row_holds(before[i], old_fresh[i], session));
            }
        }
    } else {
        assert(now.filter(keep) =~= Seq::empty());
    }
}

/// The spellings of working directories are those that the entries give, each once.
pub proof fn law_spellings_are_those_given(lines: Seq<LineModel>)
    ensures
        ({
            let out = ingest::spellings(lines, lines.len());
            &&& forall|i: int|
                0 <= i < lines.len() ==> (#[trigger] lines[i] matches LineModel::Entry(e)
                    ==> e.cwd matches Some(cwd) ==> out.contains(cwd))
            &&& forall|x: Seq<char>| #[trigger]
                out.contains(x) ==> exists|i: int|
                    0 <= i < lines.len() && (#[trigger] lines[i] matches LineModel::Entry(e)
                        && e.cwd == Some(x))
            &&& out.no_duplicates()
        }),
{
    lemma_spellings(lines, lines.len());
}

proof fn lemma_spellings(lines: Seq<LineModel>, n: nat)
    requires
        n <= lines.len(),
    ensures
        ({
            let out = ingest::spellings(lines, n);
            &&& forall|i: int|
                0 <= i < n ==> (#[trigger] lines[i] matches LineModel::Entry(e) ==> e.cwd matches Some(
                    cwd,
                ) ==> out.contains(cwd))
            &&& forall|x: Seq<char>| #[trigger]
                out.contains(x) ==> exists|i: int|
                    0 <= i < n && (#[trigger] lines[i] matches LineModel::Entry(e) && e.cwd == Some(
                        x,
                    ))
            &&& out.no_duplicates()
        }),
    decreases n,
{
    if n > 0 {
        lemma_spellings(lines, (n - 1) as nat);
        let before = ingest::spellings(lines, (n - 1) as nat);
        let out = ingest::spellings(lines, n);
        assert forall|k: int| 0 <= k < before.len() implies out[k] == before[k] by {}
        assert forall|i: int| 0 <= i < n implies (#[trigger] lines[i] matches LineModel::Entry(e)
            ==> e.cwd matches Some(cwd) ==> out.contains(cwd)) by {
            if let LineModel::Entry(e) = lines[i] {
                if let Some(cwd) = e.cwd {
                    if i < n - 1 || before.contains(cwd) {
                        let k = choose|k: int| 0 <= k < before.len() && before[k] == cwd;
                        assert(out[k] == cwd);
                    } else {
                        assert(out[before.len() as int] == cwd);
                    }
                }
            }
        }
        assert forall|x: Seq<char>| #[trigger] out.contains(x) implies exists|i: int|
            0 <= i < n && (#[trigger] lines[i] matches LineModel::Entry(e) && e.cwd == Some(
                x,
            )) by {
            let k = choose|k: int| 0 <= k < out.len() && out[k] == x;
            if k < before.len() {
                assert(before[k] == x);
                assert(before.contains(x));
                let i = choose|i: int|
                    0 <= i < n - 1 && (#[trigger] lines[i] matches LineModel::Entry(e) && e.cwd
                        == Some(x));
                assert(lines[i] is Entry);
            } else {
                assert(lines[n - 1] is Entry);
            }
        }
    }
}

/// The title that a prompt gives is its first line that is not blank.
pub proof fn law_title_is_the_first_line(prompt: Seq<char>, i: int)
    requires
        0 <= i < text::pieces(prompt, '\n').len(),
        text::trimmed(text::pieces(prompt, '\n')[i]).len() > 0,
        forall|j: int|
            0 <= j < i ==> text::trimmed(#[trigger] text::pieces(prompt, '\n')[j]).len() == 0,
    ensures
        ingest::title_from(prompt) is Some,
        text::byte_len(text::trimmed(text::pieces(prompt, '\n')[i])) <= 80 ==> ingest::title_from(
            prompt,
        ) == Some(text::trimmed(text::pieces(prompt, '\n')[i])),
{
    lemma_title_line(text::pieces(prompt, '\n'), 0, i);
}

proof fn lemma_title_line(lines: Seq<Seq<char>>, k: int, i: int)
    requires
        0 <= k <= i < lines.len(),
        text::trimmed(lines[i]).len() > 0,
        forall|j: int| 0 <= j < i ==> text::trimmed(#[trigger] lines[j]).len() == 0,
    ensures
        ingest::first_line(lines, k) == Some(text::trimmed(lines[i])),
    decreases i - k,
{
    if k < i {
        assert(text::trimmed(lines[k]).len() == 0);
        lemma_title_line(lines, k + 1, i);
    }
}

/// A title that the transcript sets goes first, then the one that is stored unless it
/// is blank, then that of the first prompt.
pub proof fn law_titles_have_their_order(
    set: Option<Seq<char>>,
    stored: Option<Seq<char>>,
    prompt: Option<Seq<char>>,
    label: Seq<char>,
)
    ensures
        ({
            let title = ingest::conversation_title(set, stored, prompt, label);
            let blank = stored is None || text::trimmed(stored->0).len() == 0;
            &&& set matches Some(t) ==> title == t
            &&& set is None && !blank ==> Some(title) == stored
            &&& set is None && blank && prompt is Some && ingest::title_from(prompt->0) is Some
                ==> Some(title) == ingest::title_from(prompt->0)
            &&& set is None && blank && prompt is None ==> title == label + " session"@
        }),
{
}

proof fn lemma_aliases(all: Seq<(Seq<char>, Seq<char>)>, root: Seq<char>, n: nat)
    requires
        n <= all.len(),
    ensures
        ingest::kept_aliases(all, root, n) == all.take(n as int).filter(
            |a: (Seq<char>, Seq<char>)| leads_in(a, root),
        ),
    decreases n,
{
    reveal(Seq::filter);
    let keep = |a: (Seq<char>, Seq<char>)| leads_in(a, root);
    let now = all.take(n as int);
    if n > 0 {
        lemma_aliases(all, root, (n - 1) as nat);
        assert(now.drop_last() =~= all.take(n - 1));
        assert(now.last() == all[n - 1]);
    } else {
        assert(now.filter(keep) =~= Seq::empty());
    }
}

/// A spelling of a directory that lies in the worktree and is not the worktree's own.
pub open spec fn leads_in(a: (Seq<char>, Seq<char>), root: Seq<char>) -> bool {
    let own = planning::is_absolute(a.0) == planning::is_absolute(root) && planning::steps(a.0)
        == planning::steps(root);
    let below = root.len() == 0 || planning::is_absolute(a.1) == planning::is_absolute(root)
        && planning::steps(root).len() <= planning::steps(a.1).len() && planning::steps(a.1).take(
        planning::steps(root).len() as int,
    ) == planning::steps(root);
    !own && below
}

/// The aliases of a worktree are exactly those spellings that lead into it.
pub proof fn law_aliases_lead_into_the_worktree(
    all: Seq<(Seq<char>, Seq<char>)>,
    root: Seq<char>,
)
    ensures
        ingest::kept_aliases(all, root, all.len()) == all.filter(
            |a: (Seq<char>, Seq<char>)| leads_in(a, root),
        ),
{
    lemma_aliases(all, root, all.len());
    assert(all.take(all.len() as int) =~= all);
}

/// A conversation begins when the store says so, else with its first response, else
/// now.
pub proof fn law_conversation_begins_with_its_first_response(
    stored: Option<Timestamp>,
    planned: Seq<PlannedModel>,
    now: Timestamp,
)
    ensures
        stored matches Some(t) ==> ingest::conversation_start(stored, planned, now) == t,
        stored is None && planned.len() > 0 ==> ingest::conversation_start(stored, planned, now)
            == planned[0].timestamp,
        stored is None && planned.len() == 0 ==> ingest::conversation_start(stored, planned, now)
            == now,
{
}

} // verus!
