//! Commit links derived from a transcript: the commits that a session itself
//! created claim its floating responses, each those since the one before.

use crate::linker::MAX_CLOCK_SKEW_SECS;
use crate::models::InteractionId;
use crate::text::text_equal;
use vstd::prelude::*;
use vstd::string::*;

verus! {

/// A commit that a response reported, where the repository has it.
pub struct ReportedCommit {
    /// When the response was written, in seconds.
    pub response_time: i64,
    /// The commit that the report names in the repository, and its time.
    pub commit: Option<CommitTime>,
}

/// A commit and its time in seconds.
#[derive(Debug)]
pub struct CommitTime {
    pub sha: String,
    pub time: i64,
}

/// The contents of [`ReportedCommit`]: response time, commit and commit time.
pub open spec fn reported(r: ReportedCommit) -> (i64, Option<(Seq<char>, i64)>) {
    (
        r.response_time,
        match r.commit {
            Some(c) => Some((c.sha@, c.time)),
            None => None,
        },
    )
}

/// The contents of reports.
pub open spec fn reports(s: Seq<ReportedCommit>) -> Seq<(i64, Option<(Seq<char>, i64)>)> {
    s.map_values(|r: ReportedCommit| reported(r))
}

/// The contents of commits.
pub open spec fn commit_times(s: Seq<CommitTime>) -> Seq<(Seq<char>, i64)> {
    s.map_values(|c: CommitTime| (c.sha@, c.time))
}

/// A commit time that is plausible for the response that reported it: not
/// before the reasoning that made it, beyond clock skew, nor in the future.
pub open spec fn plausible(time: i64, response_time: i64, now: i64) -> bool {
    time <= now + MAX_CLOCK_SKEW_SECS && time >= response_time - MAX_CLOCK_SKEW_SECS
}

/// A list of commits with one more, unless it is there already.
pub open spec fn with_commit(list: Seq<(Seq<char>, i64)>, c: (Seq<char>, i64)) -> Seq<
    (Seq<char>, i64),
> {
    if exists|i: int| 0 <= i < list.len() && (#[trigger] list[i]).0 == c.0 {
        list
    } else {
        list.push(c)
    }
}

/// The plausible commits among the first `n` reports, each once.
pub open spec fn verified(rs: Seq<(i64, Option<(Seq<char>, i64)>)>, now: i64, n: nat) -> Seq<
    (Seq<char>, i64),
>
    decreases n,
{
    if n == 0 || n > rs.len() {
        Seq::empty()
    } else {
        let before = verified(rs, now, (n - 1) as nat);
        match rs[n - 1].1 {
            Some(c) => if plausible(c.1, rs[n - 1].0, now) {
                with_commit(before, c)
            } else {
                before
            },
            None => before,
        }
    }
}

/// Where an item with this time belongs: behind every item that is not later.
pub open spec fn time_slot<T>(s: Seq<(T, i64)>, time: i64, k: int) -> int
    decreases s.len() - k,
{
    if k < 0 || k >= s.len() || s[k].1 > time {
        k
    } else {
        time_slot(s, time, k + 1)
    }
}

/// The first `n` items in the order of their times; equal times keep their order.
pub open spec fn by_time<T>(s: Seq<(T, i64)>, n: nat) -> Seq<(T, i64)>
    decreases n,
{
    if n == 0 || n > s.len() {
        Seq::empty()
    } else {
        let before = by_time(s, (n - 1) as nat);
        before.insert(time_slot(before, s[n - 1].1, 0), s[n - 1])
    }
}

proof fn lemma_time_slot<T>(s: Seq<(T, i64)>, time: i64, k: int)
    requires
        0 <= k <= s.len(),
    ensures
        k <= time_slot(s, time, k) <= s.len(),
    decreases s.len() - k,
{
    if k < s.len() && s[k].1 <= time {
        lemma_time_slot(s, time, k + 1);
    }
}

/// The commits that responses created, the earliest first.
pub fn verified_commits(rs: &Vec<ReportedCommit>, now: i64) -> (r: Vec<CommitTime>)
    ensures
        commit_times(r@) == by_time(
            verified(reports(rs@), now, rs@.len()),
            verified(reports(rs@), now, rs@.len()).len(),
        ),
{
    let ghost ms = reports(rs@);
    let mut found: Vec<CommitTime> = Vec::new();
    assert(commit_times(found@) =~= Seq::empty());
    let mut n: usize = 0;
    while n < rs.len()
        invariant
            n <= rs.len(),
            ms == reports(rs@),
            commit_times(found@) == verified(ms, now, n as nat),
        decreases rs.len() - n,
    {
        assert(ms[n as int] == reported(rs@[n as int]));
        match &rs[n].commit {
            Some(c) => {
                let limit: i128 = now as i128 + MAX_CLOCK_SKEW_SECS as i128;
                let floor: i128 = rs[n].response_time as i128 - MAX_CLOCK_SKEW_SECS as i128;
                if c.time as i128 <= limit && c.time as i128 >= floor {
                    let ghost held = commit_times(found@);
                    let mut known = false;
                    let mut i: usize = 0;
                    while i < found.len()
                        invariant
                            i <= found.len(),
                            held == commit_times(found@),
                            known == exists|k: int|
                                0 <= k < i && (#[trigger] held[k]).0 == c.sha@,
                        decreases found.len() - i,
                    {
                        assert(held[i as int] == (found@[i as int].sha@, found@[i as int].time));
                        if text_equal(found[i].sha.as_str(), c.sha.as_str()) {
                            known = true;
                        }
                        i += 1;
                    }
                    if !known {
                        found.push(CommitTime { sha: c.sha.clone(), time: c.time });
                        assert(commit_times(found@) =~= held.push((c.sha@, c.time)));
                    }
                }
            },
            None => {},
        }
        n += 1;
    }
    sort_commits(found)
}

fn sort_commits(list: Vec<CommitTime>) -> (r: Vec<CommitTime>)
    ensures
        commit_times(r@) == by_time(commit_times(list@), list@.len()),
{
    let ghost s = commit_times(list@);
    let mut out: Vec<CommitTime> = Vec::new();
    assert(commit_times(out@) =~= Seq::empty());
    let mut n: usize = 0;
    while n < list.len()
        invariant
            n <= list.len(),
            s == commit_times(list@),
            commit_times(out@) == by_time(s, n as nat),
        decreases list.len() - n,
    {
        assert(s[n as int] == (list@[n as int].sha@, list@[n as int].time));
        let time = list[n].time;
        let ghost held = commit_times(out@);
        let mut at: usize = 0;
        while at < out.len() && out[at].time <= time
            invariant
                at <= out.len(),
                held == commit_times(out@),
                time_slot(held, time, 0) == time_slot(held, time, at as int),
            decreases out.len() - at,
        {
            assert(held[at as int].1 == out@[at as int].time);
            at += 1;
        }
        proof {
            if at < out.len() {
                assert(held[at as int].1 == out@[at as int].time);
            }
        }
        out.insert(at, CommitTime { sha: list[n].sha.clone(), time });
        assert(commit_times(out@) =~= held.insert(at as int, s[n as int]));
        n += 1;
    }
    out
}

/// An interaction without a link, and its time in seconds.
#[derive(Debug, Clone, Copy)]
pub struct Floating {
    pub id: InteractionId,
    pub time: i64,
}

/// The contents of floating interactions.
pub open spec fn floating_times(s: Seq<Floating>) -> Seq<(InteractionId, i64)> {
    s.map_values(|f: Floating| (f.id, f.time))
}

fn sort_floating(list: &Vec<Floating>) -> (r: Vec<Floating>)
    ensures
        floating_times(r@) == by_time(floating_times(list@), list@.len()),
{
    let ghost s = floating_times(list@);
    let mut out: Vec<Floating> = Vec::new();
    assert(floating_times(out@) =~= Seq::empty());
    let mut n: usize = 0;
    while n < list.len()
        invariant
            n <= list.len(),
            s == floating_times(list@),
            floating_times(out@) == by_time(s, n as nat),
        decreases list.len() - n,
    {
        assert(s[n as int] == (list@[n as int].id, list@[n as int].time));
        let time = list[n].time;
        let ghost held = floating_times(out@);
        let mut at: usize = 0;
        while at < out.len() && out[at].time <= time
            invariant
                at <= out.len(),
                held == floating_times(out@),
                time_slot(held, time, 0) == time_slot(held, time, at as int),
            decreases out.len() - at,
        {
            assert(held[at as int].1 == out@[at as int].time);
            at += 1;
        }
        proof {
            if at < out.len() {
                assert(held[at as int].1 == out@[at as int].time);
            }
        }
        out.insert(at, Floating { id: list[n].id, time });
        assert(floating_times(out@) =~= held.insert(at as int, s[n as int]));
        n += 1;
    }
    out
}

/// A commit claims an interaction written at or before it that no commit
/// before it in the list claims.
pub open spec fn claims(commits: Seq<(Seq<char>, i64)>, k: int, time: i64) -> bool {
    time <= commits[k].1 && forall|j: int| 0 <= j < k ==> time > (#[trigger] commits[j]).1
}

/// The interactions that a commit claims, among the first `n`.
pub open spec fn claimed(
    floating: Seq<(InteractionId, i64)>,
    commits: Seq<(Seq<char>, i64)>,
    k: int,
    n: nat,
) -> Seq<InteractionId>
    decreases n,
{
    if n == 0 || n > floating.len() {
        Seq::empty()
    } else {
        let before = claimed(floating, commits, k, (n - 1) as nat);
        if claims(commits, k, floating[n - 1].1) {
            before.push(floating[n - 1].0)
        } else {
            before
        }
    }
}

/// Divides the floating interactions among the commits.
pub fn segment(commits: &Vec<CommitTime>, floating: &Vec<Floating>) -> (r: Vec<Vec<InteractionId>>)
    ensures
        r@.len() == commits@.len(),
        forall|k: int|
            0 <= k < commits@.len() ==> (#[trigger] r@[k])@ == claimed(
                by_time(floating_times(floating@), floating@.len()),
                commit_times(commits@),
                k,
                floating@.len(),
            ),
{
    let sorted = sort_floating(floating);
    let ghost fs = floating_times(sorted@);
    let ghost cs = commit_times(commits@);
    proof {
        lemma_by_time_len(floating_times(floating@), floating@.len());
        assert(fs.len() == sorted@.len());
    }
    let mut out: Vec<Vec<InteractionId>> = Vec::new();
    let mut k: usize = 0;
    while k < commits.len()
        invariant
            k <= commits.len(),
            fs == floating_times(sorted@),
            cs == commit_times(commits@),
            out.len() == k,
            forall|j: int|
                0 <= j < k ==> (#[trigger] out@[j])@ == claimed(fs, cs, j, sorted@.len()),
        decreases commits.len() - k,
    {
        let mut ids: Vec<InteractionId> = Vec::new();
        let mut n: usize = 0;
        while n < sorted.len()
            invariant
                k < commits.len(),
                n <= sorted.len(),
                fs == floating_times(sorted@),
                cs == commit_times(commits@),
                ids@ == claimed(fs, cs, k as int, n as nat),
            decreases sorted.len() - n,
        {
            assert(fs[n as int] == (sorted@[n as int].id, sorted@[n as int].time));
            assert(cs[k as int].1 == commits@[k as int].time);
            if sorted[n].time <= commits[k].time && unclaimed(commits, k, sorted[n].time) {
                ids.push(sorted[n].id);
            }
            n += 1;
        }
        out.push(ids);
        k += 1;
    }
    out
}

fn unclaimed(commits: &Vec<CommitTime>, k: usize, time: i64) -> (r: bool)
    requires
        k <= commits@.len(),
    ensures
        r == forall|j: int| 0 <= j < k ==> time > (#[trigger] commit_times(commits@)[j]).1,
{
    let ghost cs = commit_times(commits@);
    let mut j: usize = 0;
    while j < k
        invariant
            j <= k <= commits@.len(),
            cs == commit_times(commits@),
            forall|i: int| 0 <= i < j ==> time > (#[trigger] cs[i]).1,
        decreases k - j,
    {
        assert(cs[j as int].1 == commits@[j as int].time);
        if time <= commits[j].time {
            return false;
        }
        j += 1;
    }
    true
}

proof fn lemma_by_time_len<T>(s: Seq<(T, i64)>, n: nat)
    requires
        n <= s.len(),
    ensures
        by_time(s, n).len() == n,
    decreases n,
{
    if n > 0 {
        lemma_by_time_len(s, (n - 1) as nat);
        lemma_time_slot(by_time(s, (n - 1) as nat), s[n - 1].1, 0);
    }
}

proof fn lemma_slot_order<T>(s: Seq<(T, i64)>, time: i64, k: int, i: int)
    requires
        0 <= k <= i < s.len(),
        forall|a: int, b: int| 0 <= a <= b < s.len() ==> (#[trigger] s[a]).1 <= (#[trigger] s[b]).1,
    ensures
        i < time_slot(s, time, k) ==> s[i].1 <= time,
        i >= time_slot(s, time, k) ==> s[i].1 > time,
    decreases s.len() - k,
{
    if s[k].1 <= time {
        if k + 1 <= i {
            lemma_slot_order(s, time, k + 1, i);
        } else {
            lemma_time_slot(s, time, k + 1);
        }
    } else {
        assert(s[k].1 <= s[i].1);
    }
}

/// Commits and interactions are taken in the order of their times.
pub proof fn law_taken_in_order<T>(s: Seq<(T, i64)>, n: nat, a: int, b: int)
    requires
        n <= s.len(),
        0 <= a <= b < by_time(s, n).len(),
    ensures
        by_time(s, n)[a].1 <= by_time(s, n)[b].1,
    decreases n,
{
    if n > 0 {
        let before = by_time(s, (n - 1) as nat);
        let x = s[n - 1];
        let at = time_slot(before, x.1, 0);
        lemma_by_time_len(s, (n - 1) as nat);
        lemma_time_slot(before, x.1, 0);
        assert forall|i: int, j: int| 0 <= i <= j < before.len() implies (#[trigger] before[i]).1
            <= (#[trigger] before[j]).1 by {
            law_taken_in_order(s, (n - 1) as nat, i, j);
        }
        let now = by_time(s, n);
        if a < at && a < before.len() {
            lemma_slot_order(before, x.1, 0, a);
        }
        if b > at {
            lemma_slot_order(before, x.1, 0, b - 1);
        }
    }
}

/// No interaction is claimed by two commits.
pub proof fn law_claimed_once(commits: Seq<(Seq<char>, i64)>, j: int, k: int, time: i64)
    requires
        0 <= j < k < commits.len(),
        claims(commits, j, time),
    ensures
        !claims(commits, k, time),
{
    assert(time <= commits[j].1);
}

} // verus!
