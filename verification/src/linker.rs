//! Linking captured interactions to commits by time and by changed paths.

use crate::models;
use crate::models::{InteractionId, Timestamp};
use crate::planning;
use crate::planning::path_components;
use crate::text;
use crate::text::{chars_of, join_texts, parse_number, push_char, text_equal, trim};
use crate::textset::TextSet;
use vstd::prelude::*;
use vstd::string::*;

verus! {

pub const DEFAULT_LINK_WINDOW_SECS: u64 = 86_400;

pub const MAX_LINK_WINDOW_SECS: u64 = 2_592_000;

pub const MAX_CLOCK_SKEW_SECS: i64 = 300;

/// The earliest moment that a calendar date is kept for.
pub const MIN_MOMENT: i64 = -8_334_601_228_800;

/// The latest moment that a calendar date is kept for.
pub const MAX_MOMENT: i64 = 8_210_266_876_799;

/// Bounded deterministic policy. `cvc.linkWindow` accepts unsigned seconds;
/// invalid values and values above 30 days use the 24 hour default. Zero is a
/// deliberate opt-out from automatic linking.
#[derive(Debug, Clone, Copy, PartialEq, Eq, Structural)]
pub struct LinkPolicy {
    pub window: u64,
}

/// The window that a number of seconds asks for.
pub open spec fn window_for(seconds: u64) -> u64 {
    if seconds <= MAX_LINK_WINDOW_SECS {
        seconds
    } else {
        DEFAULT_LINK_WINDOW_SECS
    }
}

impl Default for LinkPolicy {
    fn default() -> (r: Self)
        ensures
            r.window == DEFAULT_LINK_WINDOW_SECS,
    {
        LinkPolicy::new(DEFAULT_LINK_WINDOW_SECS)
    }
}

impl LinkPolicy {
    /// The window is one that a policy may have.
    pub open spec fn wf(self) -> bool {
        self.window <= MAX_LINK_WINDOW_SECS
    }

    pub fn new(window_secs: u64) -> (r: Self)
        ensures
            r.window == window_for(window_secs),
            r.wf(),
    {
        LinkPolicy {
            window: if window_secs <= MAX_LINK_WINDOW_SECS {
                window_secs
            } else {
                DEFAULT_LINK_WINDOW_SECS
            },
        }
    }

    pub fn window_secs(self) -> (r: u64)
        ensures
            r == self.window,
    {
        self.window
    }

    /// The policy that the value of `cvc.linkWindow` asks for.
    pub fn from_setting(value: Option<&str>) -> (r: Self)
        ensures
            r.wf(),
            r.window == (match value {
                Some(v) => match text::number_of(text::trimmed(v@)) {
                    Some(n) => window_for(n),
                    None => DEFAULT_LINK_WINDOW_SECS,
                },
                None => DEFAULT_LINK_WINDOW_SECS,
            }),
    {
        match value {
            Some(v) => match parse_number(trim(v).as_str()) {
                Some(n) => LinkPolicy::new(n),
                None => LinkPolicy::new(DEFAULT_LINK_WINDOW_SECS),
            },
            None => LinkPolicy::new(DEFAULT_LINK_WINDOW_SECS),
        }
    }
}

/// One moment is later than another.
pub open spec fn later(a: Timestamp, b: Timestamp) -> bool {
    a.seconds > b.seconds || (a.seconds == b.seconds && a.nanos > b.nanos)
}

/// Whether one moment is later than another.
pub fn is_later(a: &Timestamp, b: &Timestamp) -> (r: bool)
    ensures
        r == later(*a, *b),
{
    a.seconds > b.seconds || (a.seconds == b.seconds && a.nanos > b.nanos)
}

/// A moment for which a calendar date is kept.
pub open spec fn dated(seconds: int) -> bool {
    MIN_MOMENT <= seconds <= MAX_MOMENT
}

/// The moment behind which an interaction is eligible: that of the commit's
/// parent or the start of the window, whichever is later. A parent that lies
/// implausibly in the future means that time is no evidence, and nothing is
/// eligible.
pub open spec fn lower_bound(now: Timestamp, policy: LinkPolicy, parent: Option<i64>) -> Option<
    Timestamp,
> {
    let start = now.seconds - policy.window;
    let limit = now.seconds + MAX_CLOCK_SKEW_SECS;
    if !dated(start) || !dated(limit) {
        None
    } else {
        let from = Timestamp { seconds: start as i64, nanos: now.nanos };
        match parent {
            Some(p) => {
                let t = Timestamp { seconds: p, nanos: 0 };
                if !dated(p as int) {
                    Some(from)
                } else if later(t, Timestamp { seconds: limit as i64, nanos: now.nanos }) {
                    None
                } else if later(t, from) {
                    Some(t)
                } else {
                    Some(from)
                }
            },
            None => Some(from),
        }
    }
}

/// The moment behind which an interaction is eligible.
pub fn eligibility_lower_bound(now: Timestamp, policy: LinkPolicy, parent_time: Option<i64>) -> (r:
    Option<Timestamp>)
    ensures
        r == lower_bound(now, policy, parent_time),
{
    let start: i128 = now.seconds as i128 - policy.window as i128;
    let limit: i128 = now.seconds as i128 + MAX_CLOCK_SKEW_SECS as i128;
    if start < MIN_MOMENT as i128 || start > MAX_MOMENT as i128 || limit < MIN_MOMENT as i128
        || limit > MAX_MOMENT as i128 {
        return None;
    }
    let from = Timestamp { seconds: start as i64, nanos: now.nanos };
    match parent_time {
        Some(p) => {
            if p < MIN_MOMENT || p > MAX_MOMENT {
                return Some(from);
            }
            let t = Timestamp { seconds: p, nanos: 0 };
            if is_later(&t, &Timestamp { seconds: limit as i64, nanos: now.nanos }) {
                None
            } else if is_later(&t, &from) {
                Some(t)
            } else {
                Some(from)
            }
        },
        None => Some(from),
    }
}

/// A text with slashes in place of backslashes.
pub open spec fn forward(s: Seq<char>) -> Seq<char> {
    s.map_values(
        |c: char|
            if c == '\\' {
                '/'
            } else {
                c
            },
    )
}

/// An ASCII letter.
pub open spec fn is_letter(c: char) -> bool {
    ('a' <= c <= 'z') || ('A' <= c <= 'Z')
}

/// A path that leaves the repository on some platform: it starts at the root
/// of a file system, of a host or of a drive.
pub open spec fn rooted(s: Seq<char>) -> bool {
    ||| s.len() >= 1 && s[0] == '/'
    ||| s.len() >= 2 && is_letter(s[0]) && s[1] == ':'
}

/// A path relative to the root of the repository, its components joined by
/// slashes; none for a path that may leave the repository.
pub open spec fn repository_path(path: Seq<char>) -> Option<Seq<char>> {
    let s = forward(path);
    if path.len() == 0 || path.contains('\0') || rooted(s) {
        None
    } else {
        let parts = planning::components(s);
        if parts.len() == 0 || parts.contains(".."@) {
            None
        } else {
            Some(text::joined(parts, "/"@))
        }
    }
}

/// A path relative to the root of the repository.
pub fn normalize_repository_path(path: &str) -> (r: Option<String>)
    ensures
        models::opt_text(r) == repository_path(path@),
{
    let chars = chars_of(path);
    let n: usize = chars.len();
    if n == 0 {
        return None;
    }
    let ghost s = forward(path@);
    let mut out = String::new();
    let mut i: usize = 0;
    assert(out@ =~= s.take(0));
    while i < n
        invariant
            i <= n,
            n == chars@.len(),
            n > 0,
            chars@ == path@,
            s == forward(path@),
            forall|k: int| 0 <= k < i ==> #[trigger] path@[k] != '\0',
            out@ == s.take(i as int),
        decreases n - i,
    {
        let c = chars[i];
        if c == '\0' {
            assert(path@[i as int] == '\0');
            assert(path@.contains('\0'));
            return None;
        }
        push_char(
            &mut out,
            if c == '\\' {
                '/'
            } else {
                c
            },
        );
        i += 1;
        assert(out@ =~= s.take(i as int));
    }
    assert(s.take(n as int) =~= s);
    assert(!path@.contains('\0'));
    let flat = chars_of(out.as_str());
    if flat[0] == '/' {
        return None;
    }
    if n >= 2 && ((flat[0] >= 'a' && flat[0] <= 'z') || (flat[0] >= 'A' && flat[0] <= 'Z'))
        && flat[1] == ':' {
        return None;
    }
    let parts = path_components(out.as_str());
    let ghost ps = parts.deep_view();
    assert(ps.len() == parts@.len());
    if parts.len() == 0 {
        return None;
    }
    let mut k: usize = 0;
    while k < parts.len()
        invariant
            k <= parts.len(),
            ps == parts.deep_view(),
            ps == planning::components(s),
            s == forward(path@),
            forall|j: int| 0 <= j < k ==> #[trigger] ps[j] != ".."@,
        decreases parts.len() - k,
    {
        assert(ps[k as int] == parts@[k as int]@);
        if text_equal(parts[k].as_str(), "..") {
            assert(ps.contains(".."@));
            return None;
        }
        k += 1;
    }
    assert(!ps.contains(".."@));
    Some(join_texts(&parts, "/"))
}

/// An interaction that may be linked, with the paths of its context items.
pub struct Candidate {
    pub id: InteractionId,
    pub conversation_id: String,
    pub timestamp: Timestamp,
    pub context_paths: Vec<String>,
}

/// The contents of [`Candidate`].
#[verifier::ext_equal]
pub struct CandidateModel {
    pub id: InteractionId,
    pub conversation_id: Seq<char>,
    pub timestamp: Timestamp,
    pub context_paths: Seq<Seq<char>>,
}

impl View for Candidate {
    type V = CandidateModel;

    open spec fn view(&self) -> CandidateModel {
        CandidateModel {
            id: self.id,
            conversation_id: self.conversation_id@,
            timestamp: self.timestamp,
            context_paths: self.context_paths.deep_view(),
        }
    }
}

/// The contents of candidates.
pub open spec fn candidate_models(s: Seq<Candidate>) -> Seq<CandidateModel> {
    s.map_values(|c: Candidate| c@)
}

/// An interaction within the bounds of time.
pub open spec fn in_time(c: CandidateModel, lower: Timestamp, upper: Timestamp) -> bool {
    later(c.timestamp, lower) && !later(c.timestamp, upper)
}

/// One of the paths was changed by the commit.
pub open spec fn touches(c: CandidateModel, changed: Set<Seq<char>>) -> bool {
    exists|i: int|
        0 <= i < c.context_paths.len() && is_changed(#[trigger] c.context_paths[i], changed)
}

/// The path was changed by the commit.
pub open spec fn is_changed(path: Seq<char>, changed: Set<Seq<char>>) -> bool {
    match repository_path(path) {
        Some(p) => changed.contains(p),
        None => false,
    }
}

/// The conversation has an eligible interaction that touches a changed path.
pub open spec fn qualifies(
    all: Seq<CandidateModel>,
    lower: Timestamp,
    upper: Timestamp,
    changed: Set<Seq<char>>,
    conversation: Seq<char>,
) -> bool {
    exists|i: int|
        0 <= i < all.len() && in_time(#[trigger] all[i], lower, upper) && all[i].conversation_id
            == conversation && touches(all[i], changed)
}

/// Whether and how an interaction is linked: generated where its conversation
/// touches a changed path, temporal where it has no context at all.
pub open spec fn link_for(
    all: Seq<CandidateModel>,
    lower: Timestamp,
    upper: Timestamp,
    changed: Set<Seq<char>>,
    c: CandidateModel,
) -> Option<Seq<char>> {
    if !in_time(c, lower, upper) {
        None
    } else if qualifies(all, lower, upper, changed, c.conversation_id) {
        Some("generated"@)
    } else if c.context_paths.len() == 0 {
        Some("temporal"@)
    } else {
        None
    }
}

/// The interactions that are linked in this way.
pub open spec fn linked_as(
    all: Seq<CandidateModel>,
    lower: Timestamp,
    upper: Timestamp,
    changed: Set<Seq<char>>,
    kind: Seq<char>,
    n: nat,
) -> Seq<InteractionId>
    decreases n,
{
    if n == 0 || n > all.len() {
        Seq::empty()
    } else {
        let before = linked_as(all, lower, upper, changed, kind, (n - 1) as nat);
        if link_for(all, lower, upper, changed, all[n - 1]) == Some(kind) {
            before.push(all[n - 1].id)
        } else {
            before
        }
    }
}

fn touches_changed(c: &Candidate, changed: &TextSet) -> (r: bool)
    requires
        changed.wf(),
    ensures
        r == touches(c@, changed@),
{
    let ghost ps = c@.context_paths;
    let mut i: usize = 0;
    while i < c.context_paths.len()
        invariant
            i <= c.context_paths.len(),
            changed.wf(),
            ps == c.context_paths.deep_view(),
            ps == c@.context_paths,
            forall|k: int| 0 <= k < i ==> !is_changed(#[trigger] ps[k], changed@),
        decreases c.context_paths.len() - i,
    {
        assert(ps[i as int] == c.context_paths@[i as int]@);
        match normalize_repository_path(c.context_paths[i].as_str()) {
            Some(p) => {
                if changed.contains(p.as_str()) {
                    assert(is_changed(c@.context_paths[i as int], changed@));
                    return true;
                }
            },
            None => {},
        }
        i += 1;
    }
    false
}

fn within(c: &Candidate, lower: &Timestamp, upper: &Timestamp) -> (r: bool)
    ensures
        r == in_time(c@, *lower, *upper),
{
    is_later(&c.timestamp, lower) && !is_later(&c.timestamp, upper)
}

/// The links a commit gets.
pub struct Selection {
    pub generated: Vec<InteractionId>,
    pub temporal: Vec<InteractionId>,
}

/// Chooses the interactions that a commit is linked to. `changed` holds the
/// normalized paths that the commit changed.
pub fn select_links(all: &Vec<Candidate>, lower: Timestamp, upper: Timestamp, changed: &TextSet) -> (r:
    Selection)
    requires
        changed.wf(),
    ensures
        r.generated@ == linked_as(
            candidate_models(all@),
            lower,
            upper,
            changed@,
            "generated"@,
            all@.len(),
        ),
        r.temporal@ == linked_as(
            candidate_models(all@),
            lower,
            upper,
            changed@,
            "temporal"@,
            all@.len(),
        ),
        r.generated@.len() + r.temporal@.len() <= all@.len(),
        forall|i: int, j: int, k: int|
            0 <= i < all@.len() && 0 <= j < all@.len() && all@[i].conversation_id@
                == all@[j].conversation_id@ && later(all@[i].timestamp, lower) && !later(
                all@[i].timestamp,
                upper,
            ) && later(all@[j].timestamp, lower) && !later(all@[j].timestamp, upper) && 0 <= k
                < all@[j].context_paths@.len() && (repository_path(
                (#[trigger] all@[j].context_paths@[k])@,
            ) matches Some(path) && changed@.contains(path)) ==> r.generated@.contains(
                (#[trigger] all@[i]).id,
            ),
{
    let ghost ms = candidate_models(all@);
    let mut conversations = TextSet::new();
    let mut i: usize = 0;
    while i < all.len()
        invariant
            i <= all.len(),
            changed.wf(),
            conversations.wf(),
            ms == candidate_models(all@),
            forall|x: Seq<char>| #[trigger]
                conversations@.contains(x) <==> exists|k: int|
                    0 <= k < i && in_time(#[trigger] ms[k], lower, upper) && ms[k].conversation_id
                        == x && touches(ms[k], changed@),
        decreases all.len() - i,
    {
        assert(ms[i as int] == all@[i as int]@);
        let ghost before = conversations@;
        let hit = within(&all[i], &lower, &upper) && touches_changed(&all[i], changed);
        if hit {
            conversations.insert(all[i].conversation_id.clone());
        }
        proof {
            assert forall|x: Seq<char>| #[trigger] conversations@.contains(x) <==> exists|k: int|
                0 <= k < i + 1 && in_time(#[trigger] ms[k], lower, upper) && ms[k].conversation_id
                    == x && touches(ms[k], changed@) by {
                if conversations@.contains(x) {
                    if before.contains(x) {
                        let k = choose|k: int|
                            0 <= k < i && in_time(#[trigger] ms[k], lower, upper)
                                && ms[k].conversation_id == x && touches(ms[k], changed@);
                        assert(in_time(ms[k], lower, upper));
                    } else {
                        assert(in_time(ms[i as int], lower, upper));
                    }
                }
                if exists|k: int|
                    0 <= k < i + 1 && in_time(#[trigger] ms[k], lower, upper)
                        && ms[k].conversation_id == x && touches(ms[k], changed@) {
                    let k = choose|k: int|
                        0 <= k < i + 1 && in_time(#[trigger] ms[k], lower, upper)
                            && ms[k].conversation_id == x && touches(ms[k], changed@);
                    if k < i {
                        assert(before.contains(x));
                    }
                }
            }
        }
        i += 1;
    }
    proof {
        reveal_strlit("generated");
        reveal_strlit("temporal");
        assert("generated"@.len() != "temporal"@.len());
        assert forall|x: Seq<char>| #[trigger] conversations@.contains(x) <==> qualifies(
            ms,
            lower,
            upper,
            changed@,
            x,
        ) by {}
    }
    let mut generated: Vec<InteractionId> = Vec::new();
    let mut temporal: Vec<InteractionId> = Vec::new();
    let mut n: usize = 0;
    while n < all.len()
        invariant
            n <= all.len(),
            conversations.wf(),
            ms == candidate_models(all@),
            "generated"@ != "temporal"@,
            forall|x: Seq<char>| #[trigger]
                conversations@.contains(x) <==> qualifies(ms, lower, upper, changed@, x),
            generated@ == linked_as(ms, lower, upper, changed@, "generated"@, n as nat),
            temporal@ == linked_as(ms, lower, upper, changed@, "temporal"@, n as nat),
        decreases all.len() - n,
    {
        let c = &all[n];
        assert(ms[n as int] == c@);
        assert(c@.context_paths.len() == c.context_paths@.len());
        if within(c, &lower, &upper) {
            if conversations.contains(c.conversation_id.as_str()) {
                generated.push(c.id);
            } else if c.context_paths.len() == 0 {
                temporal.push(c.id);
            }
        }
        n += 1;
    }
    proof {
        law_selection_is_by_conversation(ms, lower, upper, changed@);
        lemma_each_linked_once(ms, lower, upper, changed@, ms.len());
        assert forall|i: int, j: int, k: int|
            0 <= i < all@.len() && 0 <= j < all@.len() && all@[i].conversation_id@
                == all@[j].conversation_id@ && later(all@[i].timestamp, lower) && !later(
                all@[i].timestamp,
                upper,
            ) && later(all@[j].timestamp, lower) && !later(all@[j].timestamp, upper) && 0 <= k
                < all@[j].context_paths@.len() && (repository_path(
                (#[trigger] all@[j].context_paths@[k])@,
            ) matches Some(path) && changed@.contains(path)) implies generated@.contains(
            (#[trigger] all@[i]).id,
        ) by {
            assert(ms[i] == all@[i]@);
            assert(ms[j] == all@[j]@);
            assert(ms[j].context_paths[k] == all@[j].context_paths@[k]@);
            law_touched_conversation_is_generated(ms, lower, upper, changed@, i, j, k);
        }
    }
    Selection { generated, temporal }
}

/// A policy never reaches back further than thirty days.
pub proof fn law_window_is_bounded(seconds: u64)
    ensures
        window_for(seconds) <= MAX_LINK_WINDOW_SECS,
        seconds <= MAX_LINK_WINDOW_SECS ==> window_for(seconds) == seconds,
{
}

/// Nothing is linked that was captured before the window or before the parent
/// of the commit.
pub proof fn law_linked_is_recent(
    all: Seq<CandidateModel>,
    now: Timestamp,
    policy: LinkPolicy,
    parent: Option<i64>,
    upper: Timestamp,
    changed: Set<Seq<char>>,
    c: CandidateModel,
)
    requires
        lower_bound(now, policy, parent) is Some,
        link_for(all, lower_bound(now, policy, parent)->0, upper, changed, c) is Some,
    ensures
        c.timestamp.seconds >= now.seconds - policy.window,
        parent matches Some(p) ==> dated(p as int) ==> c.timestamp.seconds >= p,
        !later(c.timestamp, upper),
{
}

/// A moment lies behind the lower bound and not behind the upper one.
proof fn lemma_in_time(c: CandidateModel, lower: Timestamp, upper: Timestamp)
    ensures
        in_time(c, lower, upper) <==> {
            &&& lower.seconds < c.timestamp.seconds || (lower.seconds == c.timestamp.seconds
                && lower.nanos < c.timestamp.nanos)
            &&& c.timestamp.seconds < upper.seconds || (c.timestamp.seconds == upper.seconds
                && c.timestamp.nanos <= upper.nanos)
        },
{
}

/// The interactions that are linked as `kind` are those that `keep` picks out.
proof fn lemma_linked_as_filter(
    all: Seq<CandidateModel>,
    lower: Timestamp,
    upper: Timestamp,
    changed: Set<Seq<char>>,
    kind: Seq<char>,
    keep: spec_fn(CandidateModel) -> bool,
    n: nat,
)
    requires
        n <= all.len(),
        forall|i: int|
            0 <= i < all.len() ==> (link_for(all, lower, upper, changed, #[trigger] all[i]) == Some(
                kind,
            ) <==> keep(all[i])),
    ensures
        linked_as(all, lower, upper, changed, kind, n) == all.take(n as int).filter(
            keep,
        ).map_values(|c: CandidateModel| c.id),
    decreases n,
{
    reveal(Seq::filter);
    let id = |c: CandidateModel| c.id;
    if n == 0 {
        assert(all.take(0).filter(keep).map_values(id) =~= Seq::empty());
    } else {
        lemma_linked_as_filter(all, lower, upper, changed, kind, keep, (n - 1) as nat);
        let now = all.take(n as int);
        assert(now.drop_last() =~= all.take(n - 1));
        assert(now.last() == all[n - 1]);
        let before = all.take(n - 1).filter(keep);
        if keep(all[n - 1]) {
            assert(now.filter(keep) == before.push(all[n - 1]));
            assert(before.push(all[n - 1]).map_values(id) =~= before.map_values(id).push(
                all[n - 1].id,
            ));
        }
    }
}

proof fn lemma_each_linked_once(
    all: Seq<CandidateModel>,
    lower: Timestamp,
    upper: Timestamp,
    changed: Set<Seq<char>>,
    n: nat,
)
    requires
        n <= all.len(),
        "generated"@ != "temporal"@,
    ensures
        linked_as(all, lower, upper, changed, "generated"@, n).len() + linked_as(
            all,
            lower,
            upper,
            changed,
            "temporal"@,
            n,
        ).len() <= n,
    decreases n,
{
    if n > 0 {
        lemma_each_linked_once(all, lower, upper, changed, (n - 1) as nat);
    }
}

/// What a commit is linked to, among the candidates in their order. Generated are
/// those within the bounds of time whose conversation has a candidate within the
/// bounds, be it another one, with a path that the commit changed. Temporal are those
/// within the bounds without any context, in a conversation that has none.
pub proof fn law_selection_is_by_conversation(
    all: Seq<CandidateModel>,
    lower: Timestamp,
    upper: Timestamp,
    changed: Set<Seq<char>>,
)
    ensures
        ({
            let timely = |c: CandidateModel|
                {
                    &&& lower.seconds < c.timestamp.seconds || (lower.seconds == c.timestamp.seconds
                        && lower.nanos < c.timestamp.nanos)
                    &&& c.timestamp.seconds < upper.seconds || (c.timestamp.seconds == upper.seconds
                        && c.timestamp.nanos <= upper.nanos)
                };
            let touched = |conversation: Seq<char>|
                exists|j: int, k: int|
                    0 <= j < all.len() && timely(all[j]) && all[j].conversation_id == conversation
                        && 0 <= k < all[j].context_paths.len() && (repository_path(
                        #[trigger] all[j].context_paths[k],
                    ) matches Some(path) && changed.contains(path));
            &&& linked_as(all, lower, upper, changed, "generated"@, all.len()) == all.filter(
                |c: CandidateModel| timely(c) && touched(c.conversation_id),
            ).map_values(|c: CandidateModel| c.id)
            &&& linked_as(all, lower, upper, changed, "temporal"@, all.len()) == all.filter(
                |c: CandidateModel|
                    timely(c) && !touched(c.conversation_id) && c.context_paths.len() == 0,
            ).map_values(|c: CandidateModel| c.id)
        }),
{
    let timely = |c: CandidateModel|
        {
            &&& lower.seconds < c.timestamp.seconds || (lower.seconds == c.timestamp.seconds
                && lower.nanos < c.timestamp.nanos)
            &&& c.timestamp.seconds < upper.seconds || (c.timestamp.seconds == upper.seconds
                && c.timestamp.nanos <= upper.nanos)
        };
    let touched = |conversation: Seq<char>|
        exists|j: int, k: int|
            0 <= j < all.len() && timely(all[j]) && all[j].conversation_id == conversation && 0 <= k
                < all[j].context_paths.len() && (repository_path(
                #[trigger] all[j].context_paths[k],
            ) matches Some(path) && changed.contains(path));
    let generated = |c: CandidateModel| timely(c) && touched(c.conversation_id);
    let temporal = |c: CandidateModel|
        timely(c) && !touched(c.conversation_id) && c.context_paths.len() == 0;
    reveal_strlit("generated");
    reveal_strlit("temporal");
    assert("generated"@.len() != "temporal"@.len());
    assert forall|conversation: Seq<char>| qualifies(all, lower, upper, changed, conversation)
        <==> #[trigger] touched(conversation) by {
        if qualifies(all, lower, upper, changed, conversation) {
            let j = choose|j: int|
                0 <= j < all.len() && in_time(#[trigger] all[j], lower, upper)
                    && all[j].conversation_id == conversation && touches(all[j], changed);
            let k = choose|k: int|
                0 <= k < all[j].context_paths.len() && is_changed(
                    #[trigger] all[j].context_paths[k],
                    changed,
                );
            lemma_in_time(all[j], lower, upper);
            assert(repository_path(all[j].context_paths[k]) is Some);
        }
        if touched(conversation) {
            let (j, k) = choose|j: int, k: int|
                0 <= j < all.len() && timely(all[j]) && all[j].conversation_id == conversation && 0
                    <= k < all[j].context_paths.len() && (repository_path(
                    #[trigger] all[j].context_paths[k],
                ) matches Some(path) && changed.contains(path));
            lemma_in_time(all[j], lower, upper);
            assert(is_changed(all[j].context_paths[k], changed));
            assert(touches(all[j], changed));
            assert(in_time(all[j], lower, upper));
        }
    }
    assert forall|i: int| 0 <= i < all.len() implies (link_for(
        all,
        lower,
        upper,
        changed,
        #[trigger] all[i],
    ) == Some("generated"@) <==> generated(all[i])) && (link_for(
        all,
        lower,
        upper,
        changed,
        all[i],
    ) == Some("temporal"@) <==> temporal(all[i])) by {
        lemma_in_time(all[i], lower, upper);
        assert(qualifies(all, lower, upper, changed, all[i].conversation_id) <==> touched(
            all[i].conversation_id,
        ));
    }
    lemma_linked_as_filter(all, lower, upper, changed, "generated"@, generated, all.len());
    lemma_linked_as_filter(all, lower, upper, changed, "temporal"@, temporal, all.len());
    assert(all.take(all.len() as int) =~= all);
}

/// A conversation that touches a changed path qualifies as a whole: every
/// interaction of it within the bounds of time is linked as generated, whatever its
/// own context is.
pub proof fn law_touched_conversation_is_generated(
    all: Seq<CandidateModel>,
    lower: Timestamp,
    upper: Timestamp,
    changed: Set<Seq<char>>,
    i: int,
    j: int,
    k: int,
)
    requires
        0 <= i < all.len(),
        0 <= j < all.len(),
        all[i].conversation_id == all[j].conversation_id,
        later(all[i].timestamp, lower) && !later(all[i].timestamp, upper),
        later(all[j].timestamp, lower) && !later(all[j].timestamp, upper),
        0 <= k < all[j].context_paths.len(),
        repository_path(all[j].context_paths[k]) matches Some(path) && changed.contains(path),
    ensures
        linked_as(all, lower, upper, changed, "generated"@, all.len()).contains(all[i].id),
        !linked_as(all, lower, upper, changed, "temporal"@, all.len()).contains(all[i].id) || exists|
            other: int,
        |
            0 <= other < all.len() && other != i && (#[trigger] all[other]).id == all[i].id,
{
    assert(is_changed(all[j].context_paths[k], changed));
    assert(touches(all[j], changed));
    assert(in_time(all[j], lower, upper));
    assert(qualifies(all, lower, upper, changed, all[i].conversation_id));
    reveal_strlit("generated");
    reveal_strlit("temporal");
    assert("generated"@.len() != "temporal"@.len());
    assert(link_for(all, lower, upper, changed, all[i]) == Some("generated"@));
    lemma_linked_is_listed(all, lower, upper, changed, "generated"@, all.len(), i);
    let temporal = linked_as(all, lower, upper, changed, "temporal"@, all.len());
    if temporal.contains(all[i].id) {
        let at = choose|at: int| 0 <= at < temporal.len() && temporal[at] == all[i].id;
        let other = lemma_listed_is_linked(all, lower, upper, changed, "temporal"@, all.len(), at);
        assert(all[other].id == all[i].id);
    }
}

proof fn lemma_linked_is_listed(
    all: Seq<CandidateModel>,
    lower: Timestamp,
    upper: Timestamp,
    changed: Set<Seq<char>>,
    kind: Seq<char>,
    n: nat,
    i: int,
)
    requires
        0 <= i < n <= all.len(),
        link_for(all, lower, upper, changed, all[i]) == Some(kind),
    ensures
        linked_as(all, lower, upper, changed, kind, n).contains(all[i].id),
    decreases n,
{
    let now = linked_as(all, lower, upper, changed, kind, n);
    let before = linked_as(all, lower, upper, changed, kind, (n - 1) as nat);
    if i == n - 1 {
        assert(now[now.len() - 1] == all[i].id);
    } else {
        lemma_linked_is_listed(all, lower, upper, changed, kind, (n - 1) as nat, i);
        let at = choose|at: int| 0 <= at < before.len() && before[at] == all[i].id;
        assert(now[at] == all[i].id);
    }
}

proof fn lemma_listed_is_linked(
    all: Seq<CandidateModel>,
    lower: Timestamp,
    upper: Timestamp,
    changed: Set<Seq<char>>,
    kind: Seq<char>,
    n: nat,
    at: int,
) -> (i: int)
    requires
        n <= all.len(),
        0 <= at < linked_as(all, lower, upper, changed, kind, n).len(),
    ensures
        0 <= i < n,
        all[i].id == linked_as(all, lower, upper, changed, kind, n)[at],
        link_for(all, lower, upper, changed, all[i]) == Some(kind),
    decreases n,
{
    let before = linked_as(all, lower, upper, changed, kind, (n - 1) as nat);
    if at < before.len() {
        lemma_listed_is_linked(all, lower, upper, changed, kind, (n - 1) as nat, at)
    } else {
        n - 1
    }
}

/// Every interaction that is linked as generated is one within the bounds of time,
/// of a conversation with a candidate within the bounds whose context has a changed
/// path.
pub proof fn law_generated_is_touched(
    all: Seq<CandidateModel>,
    lower: Timestamp,
    upper: Timestamp,
    changed: Set<Seq<char>>,
    id: InteractionId,
)
    requires
        linked_as(all, lower, upper, changed, "generated"@, all.len()).contains(id),
    ensures
        exists|i: int, j: int, k: int|
            0 <= i < all.len() && (#[trigger] all[i]).id == id && later(all[i].timestamp, lower)
                && !later(all[i].timestamp, upper) && 0 <= j < all.len() && all[j].conversation_id
                == all[i].conversation_id && later(all[j].timestamp, lower) && !later(
                all[j].timestamp,
                upper,
            ) && 0 <= k < all[j].context_paths.len() && (repository_path(
                #[trigger] all[j].context_paths[k],
            ) matches Some(path) && changed.contains(path)),
{
    let generated = linked_as(all, lower, upper, changed, "generated"@, all.len());
    let at = choose|at: int| 0 <= at < generated.len() && generated[at] == id;
    reveal_strlit("generated");
    reveal_strlit("temporal");
    assert("generated"@.len() != "temporal"@.len());
    let i = lemma_listed_is_linked(all, lower, upper, changed, "generated"@, all.len(), at);
    assert(qualifies(all, lower, upper, changed, all[i].conversation_id));
    let j = choose|j: int|
        0 <= j < all.len() && in_time(#[trigger] all[j], lower, upper) && all[j].conversation_id
            == all[i].conversation_id && touches(all[j], changed);
    let k = choose|k: int|
        0 <= k < all[j].context_paths.len() && is_changed(
            #[trigger] all[j].context_paths[k],
            changed,
        );
    assert(all[i].id == id);
    assert(repository_path(all[j].context_paths[k]) is Some);
}

} // verus!
