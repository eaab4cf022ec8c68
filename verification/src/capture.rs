//! Captures: what is kept of a turn of a conversation, and the last guard
//! before it is exchanged.

use crate::models;
use crate::models::{
    ArtifactLink, CaptureSource, ContextItem, ContextModel, Conversation, ConversationModel,
    Interaction, InteractionModel, LinkModel, ToolExecution, ToolModel, copy_links,
    copy_opt_text,
};
use crate::privacy;
use crate::privacy::{
    MAX_CAPTURE_BYTES, MAX_CONTEXT, MAX_TOOLS, PolicyFault, PolicyModel, PrivacyError,
    ThoughtIgnore, clean_opt, is_oid, is_safe_identifier, scrub, scrub_json_with_policy,
};
use crate::sync;
use crate::text;
use crate::text::{bytes_len, text_equal};
use crate::tree::{NodeModel, SyncNode};
use vstd::prelude::*;
use vstd::string::*;

verus! {

/// An opaque, single-read policy snapshot for one capture operation.  It is
/// intentionally not reloadable by capture code: callers that inspect paths
/// and later persist a capture hand the exact same value to the capture.
pub struct PreparedPolicy {
    pub rules: ThoughtIgnore,
}

impl PreparedPolicy {
    /// The policy that the text of a policy file states; without a file there
    /// are no repository rules.
    pub fn load(text: Option<&str>) -> (r: Result<Self, PrivacyError>)
        ensures
            match text {
                None => r matches Ok(p) && p.rules@ == privacy::no_policy(),
                Some(t) => match privacy::policy_of(t@) {
                    Ok(m) => r matches Ok(p) && p.rules@ == m,
                    Err(e) => r matches Err(f) && f == e,
                },
            },
    {
        match text {
            None => Ok(PreparedPolicy { rules: ThoughtIgnore::default() }),
            Some(t) => match ThoughtIgnore::parse(t) {
                Ok(rules) => Ok(PreparedPolicy { rules }),
                Err(e) => Err(e),
            },
        }
    }

    pub fn built_ins_only() -> (r: Self)
        ensures
            r.rules@ == privacy::no_policy(),
    {
        PreparedPolicy { rules: ThoughtIgnore::default() }
    }

    pub fn ignores_path(&self, path: &str) -> (r: bool)
        ensures
            r == privacy::ignored_path(self.rules@, path@),
    {
        self.rules.ignores_path(path)
    }
}

/// Without repository rules a policy does what plain scrubbing does.
pub proof fn law_no_policy_is_scrub(text: Seq<char>, r: Result<Seq<char>, PrivacyError>)
    ensures
        privacy::may_clean(privacy::no_policy(), text, r) <==> privacy::may_scrub(text, r),
{
    if privacy::may_clean(privacy::no_policy(), text, r) {
        let (choice, ids, rc) = choose|
            choice: Seq<Seq<Seq<u128>>>,
            ids: Seq<u128>,
            rc: Seq<Seq<u128>>,
        | #[trigger]
            privacy::policy_outcome(privacy::no_policy(), text, choice, ids, rc) == r;
        assert(privacy::scrub_outcome(text, choice) == r);
    }
    if privacy::may_scrub(text, r) {
        let choice = choose|choice: Seq<Seq<Seq<u128>>>| #[trigger]
            privacy::scrub_outcome(text, choice) == r;
        assert(privacy::policy_outcome(
            privacy::no_policy(),
            text,
            choice,
            Seq::<u128>::empty(),
            Seq::<Seq<u128>>::empty(),
        ) == r);
    }
}

/// Repository rules add redactions and never remove built-in ones: whatever a
/// policy makes of a text, it makes of what plain scrubbing made of that text.
pub proof fn law_policy_works_on_scrubbed_text(
    p: PolicyModel,
    text: Seq<char>,
    r: Result<Seq<char>, PrivacyError>,
)
    requires
        privacy::may_clean(p, text, r),
    ensures
        exists|scrubbed: Result<Seq<char>, PrivacyError>| #[trigger]
            privacy::may_scrub(text, scrubbed) && match scrubbed {
                Err(e) => r == Err::<Seq<char>, PrivacyError>(e),
                Ok(t) => exists|ids: Seq<u128>, choice: Seq<Seq<u128>>| #[trigger]
                    privacy::rules_outcome(p, t, ids, choice) == r,
            },
{
    let (choice, ids, rc) = choose|
        choice: Seq<Seq<Seq<u128>>>,
        ids: Seq<u128>,
        rc: Seq<Seq<u128>>,
    | #[trigger]
        privacy::policy_outcome(p, text, choice, ids, rc) == r;
    let scrubbed = privacy::scrub_outcome(text, choice);
    assert(privacy::may_scrub(text, scrubbed));
    match scrubbed {
        Ok(t) => {
            assert(privacy::rules_outcome(p, t, ids, rc) == r);
        },
        Err(_) => {},
    }
}

/// A turn of a conversation with everything captured beside it.
pub struct Capture {
    pub conversation: Conversation,
    pub interaction: Interaction,
    pub context_items: Vec<ContextItem>,
    pub tool_executions: Vec<ToolExecution>,
    pub source: CaptureSource,
    pub policy: PreparedPolicy,
}

/// The contents of [`Capture`].
#[verifier::ext_equal]
pub struct CaptureModel {
    pub conversation: ConversationModel,
    pub interaction: InteractionModel,
    pub context_items: Seq<ContextModel>,
    pub tool_executions: Seq<ToolModel>,
    pub source: CaptureSource,
    pub policy: PolicyModel,
}

impl View for Capture {
    type V = CaptureModel;

    open spec fn view(&self) -> CaptureModel {
        CaptureModel {
            conversation: self.conversation@,
            interaction: self.interaction@,
            context_items: models::context_models(self.context_items@),
            tool_executions: models::tool_models(self.tool_executions@),
            source: self.source,
            policy: self.policy.rules@,
        }
    }
}

/// The capture of an imported interaction.
pub fn sync_import_capture(
    conversation: Conversation,
    interaction: Interaction,
    context_items: Vec<ContextItem>,
    tool_executions: Vec<ToolExecution>,
) -> (r: Capture)
    ensures
        r@ == (CaptureModel {
            conversation: conversation@,
            interaction: interaction@,
            context_items: models::context_models(context_items@),
            tool_executions: models::tool_models(tool_executions@),
            source: CaptureSource::SyncImport,
            policy: privacy::no_policy(),
        }),
{
    Capture {
        conversation,
        interaction,
        context_items,
        tool_executions,
        source: CaptureSource::SyncImport,
        policy: PreparedPolicy::built_ins_only(),
    }
}

/// The bytes of an optional text.
pub open spec fn opt_bytes(o: Option<Seq<char>>) -> int {
    match o {
        Some(s) => text::byte_len(s) as int,
        None => 0,
    }
}

/// The bytes of a context item.
pub open spec fn context_bytes(c: ContextModel) -> int {
    text::byte_len(c.file_path) + opt_bytes(c.git_blob_sha) + opt_bytes(c.dirty_patch)
}

/// The bytes of a tool execution.
pub open spec fn tool_bytes(t: ToolModel) -> int {
    text::byte_len(t.tool_protocol) as int + text::byte_len(t.tool_name) + text::byte_len(t.arguments)
}

/// The bytes of the first `n` context items.
pub open spec fn contexts_bytes(s: Seq<ContextModel>, n: nat) -> int
    decreases n,
{
    if n == 0 {
        0
    } else {
        contexts_bytes(s, (n - 1) as nat) + context_bytes(s[n - 1])
    }
}

/// The bytes of the first `n` tool executions.
pub open spec fn tools_bytes(s: Seq<ToolModel>, n: nat) -> int
    decreases n,
{
    if n == 0 {
        0
    } else {
        tools_bytes(s, (n - 1) as nat) + tool_bytes(s[n - 1])
    }
}

/// The bytes of the texts of a capture.
pub open spec fn capture_bytes(c: CaptureModel) -> int {
    text::byte_len(c.conversation.id) + text::byte_len(c.conversation.title) + text::byte_len(
        c.interaction.conversation_id,
    ) + text::byte_len(c.interaction.user_prompt) + opt_bytes(c.interaction.model_name) + opt_bytes(
        c.interaction.model_cot,
    ) + opt_bytes(c.interaction.model_response) + contexts_bytes(
        c.context_items,
        c.context_items.len(),
    ) + tools_bytes(c.tool_executions, c.tool_executions.len())
}

/// The sum of sizes, as far as it stays below a bound.
struct Budget {
    left: usize,
    over: bool,
}

impl Budget {
    /// `spent` bytes of `MAX_CAPTURE_BYTES` are used.
    spec fn stands_for(self, spent: int) -> bool {
        &&& 0 <= spent
        &&& self.over <==> spent > MAX_CAPTURE_BYTES
        &&& !self.over ==> self.left == MAX_CAPTURE_BYTES - spent
    }

    fn spend(&mut self, n: usize, Ghost(spent): Ghost<int>)
        requires
            old(self).stands_for(spent),
        ensures
            final(self).stands_for(spent + n),
    {
        if !self.over {
            if n > self.left {
                self.over = true;
            } else {
                self.left = self.left - n;
            }
        }
    }
}

fn opt_len(o: &Option<String>) -> (r: usize)
    ensures
        r == opt_bytes(models::opt_text(*o)),
{
    match o {
        Some(s) => bytes_len(s.as_str()),
        None => 0,
    }
}

fn within_budget(c: &Capture) -> (r: bool)
    ensures
        r == (capture_bytes(c@) <= MAX_CAPTURE_BYTES),
{
    let mut b = Budget { left: MAX_CAPTURE_BYTES, over: false };
    let ghost m = c@;
    let ghost mut spent: int = 0;
    let n: usize = bytes_len(c.conversation.id.as_str());
    b.spend(n, Ghost(spent));
    proof {
        spent = spent + n;
    }
    let n: usize = bytes_len(c.conversation.title.as_str());
    b.spend(n, Ghost(spent));
    proof {
        spent = spent + n;
    }
    let n: usize = bytes_len(c.interaction.conversation_id.as_str());
    b.spend(n, Ghost(spent));
    proof {
        spent = spent + n;
    }
    let n: usize = bytes_len(c.interaction.user_prompt.as_str());
    b.spend(n, Ghost(spent));
    proof {
        spent = spent + n;
    }
    let n: usize = opt_len(&c.interaction.model_name);
    b.spend(n, Ghost(spent));
    proof {
        spent = spent + n;
    }
    let n: usize = opt_len(&c.interaction.model_cot);
    b.spend(n, Ghost(spent));
    proof {
        spent = spent + n;
    }
    let n: usize = opt_len(&c.interaction.model_response);
    b.spend(n, Ghost(spent));
    proof {
        spent = spent + n;
    }
    let ghost base = spent;
    let mut i: usize = 0;
    while i < c.context_items.len()
        invariant
            i <= c.context_items.len(),
            m == c@,
            b.stands_for(spent),
            spent == base + contexts_bytes(m.context_items, i as nat),
        decreases c.context_items.len() - i,
    {
        let x = &c.context_items[i];
        assert(m.context_items[i as int] == x@);
        let n1: usize = bytes_len(x.file_path.as_str());
        let n2: usize = opt_len(&x.git_blob_sha);
        let n3: usize = opt_len(&x.dirty_patch);
        b.spend(n1, Ghost(spent));
        b.spend(n2, Ghost(spent + n1));
        b.spend(n3, Ghost(spent + n1 + n2));
        proof {
            spent = spent + n1 + n2 + n3;
        }
        i += 1;
    }
    let ghost base2 = spent;
    let mut i: usize = 0;
    while i < c.tool_executions.len()
        invariant
            i <= c.tool_executions.len(),
            m == c@,
            b.stands_for(spent),
            spent == base2 + tools_bytes(m.tool_executions, i as nat),
        decreases c.tool_executions.len() - i,
    {
        let x = &c.tool_executions[i];
        assert(m.tool_executions[i as int] == x@);
        let n1: usize = bytes_len(x.tool_protocol.as_str());
        let n2: usize = bytes_len(x.tool_name.as_str());
        let n3: usize = bytes_len(x.arguments.as_str());
        b.spend(n1, Ghost(spent));
        b.spend(n2, Ghost(spent + n1));
        b.spend(n3, Ghost(spent + n1 + n2));
        proof {
            spent = spent + n1 + n2 + n3;
        }
        i += 1;
    }
    assert(m.context_items.len() == c.context_items@.len());
    assert(m.tool_executions.len() == c.tool_executions@.len());
    !b.over
}

/// A context item that a capture keeps, as the policy may leave it.
pub open spec fn may_keep_context(p: PolicyModel, x: ContextModel, y: ContextModel) -> bool {
    &&& !privacy::ignored_path(p, x.file_path)
    &&& privacy::may_clean(p, x.file_path, Ok(y.file_path))
    &&& y.git_blob_sha == x.git_blob_sha
    &&& match x.git_blob_sha {
        Some(s) => privacy::full_oid(s),
        None => true,
    }
    &&& privacy::may_clean_opt(p, x.dirty_patch, y.dirty_patch)
    &&& y.id == x.id
    &&& y.interaction_id == x.interaction_id
    &&& y.start_line == x.start_line
    &&& y.end_line == x.end_line
}

/// A context item that a capture drops: its path is ignored, or nothing is
/// left of the path.
pub open spec fn may_drop_context(p: PolicyModel, x: ContextModel) -> bool {
    privacy::ignored_path(p, x.file_path) || privacy::may_clean(p, x.file_path, Ok(Seq::<char>::empty()))
}

/// The context items that a capture keeps of the first `n`, in order.
pub open spec fn may_keep_contexts(
    p: PolicyModel,
    xs: Seq<ContextModel>,
    n: nat,
    ys: Seq<ContextModel>,
) -> bool
    decreases n,
{
    if n == 0 {
        ys.len() == 0
    } else {
        ||| may_drop_context(p, xs[n - 1]) && may_keep_contexts(p, xs, (n - 1) as nat, ys)
        ||| ys.len() > 0 && ys.last().file_path.len() > 0 && may_keep_context(
            p,
            xs[n - 1],
            ys.last(),
        ) && may_keep_contexts(p, xs, (n - 1) as nat, ys.drop_last())
    }
}

/// A tool execution as the policy may leave it.
pub open spec fn may_keep_tool(p: PolicyModel, x: ToolModel, y: ToolModel) -> bool {
    &&& privacy::may_clean(p, x.tool_protocol, Ok(y.tool_protocol))
    &&& privacy::may_clean(p, x.tool_name, Ok(y.tool_name))
    &&& privacy::may_clean_text(p, x.arguments, Ok(y.arguments))
    &&& y.id == x.id
    &&& y.interaction_id == x.interaction_id
    &&& y.status == x.status
}

/// Tool executions as the policy may leave them.
pub open spec fn may_keep_tools(p: PolicyModel, xs: Seq<ToolModel>, ys: Seq<ToolModel>) -> bool {
    &&& ys.len() == xs.len()
    &&& forall|i: int| 0 <= i < xs.len() ==> may_keep_tool(p, xs[i], #[trigger] ys[i])
}

/// A request identifier as a capture may leave it.
pub open spec fn may_keep_request(a: Option<Seq<char>>, b: Option<Seq<char>>) -> bool {
    match a {
        None => b is None,
        Some(s) => privacy::safe_identifier(s) && b is Some && privacy::may_scrub(s, Ok(b->0)),
    }
}

/// What a capture may become. Identifiers are relational keys and stay; texts
/// are scrubbed.
pub open spec fn may_prepare(a: CaptureModel, b: CaptureModel) -> bool {
    let p = a.policy;
    &&& a.context_items.len() <= MAX_CONTEXT
    &&& a.tool_executions.len() <= MAX_TOOLS
    &&& capture_bytes(a) <= MAX_CAPTURE_BYTES
    &&& privacy::safe_identifier(a.conversation.id)
    &&& a.interaction.conversation_id == a.conversation.id
    &&& b.source == a.source
    &&& b.policy == a.policy
    &&& b.conversation.id == a.conversation.id
    &&& b.conversation.created_at == a.conversation.created_at
    &&& privacy::may_clean(p, a.conversation.title, Ok(b.conversation.title))
    &&& b.interaction.id == a.interaction.id
    &&& b.interaction.conversation_id == a.interaction.conversation_id
    &&& b.interaction.parent_id == a.interaction.parent_id
    &&& b.interaction.timestamp == a.interaction.timestamp
    &&& b.interaction.author == a.interaction.author
    &&& privacy::may_clean(p, a.interaction.user_prompt, Ok(b.interaction.user_prompt))
    &&& privacy::may_clean_opt(p, a.interaction.model_name, b.interaction.model_name)
    &&& privacy::may_clean_opt(p, a.interaction.model_cot, b.interaction.model_cot)
    &&& privacy::may_clean_opt(p, a.interaction.model_response, b.interaction.model_response)
    &&& may_keep_request(a.interaction.source_request_id, b.interaction.source_request_id)
    &&& may_keep_contexts(p, a.context_items, a.context_items.len(), b.context_items)
    &&& may_keep_tools(p, a.tool_executions, b.tool_executions)
}

/// An optional text on which the policy may fail so.
pub open spec fn opt_may_fail(p: PolicyModel, a: Option<Seq<char>>, e: PrivacyError) -> bool {
    a matches Some(s) && privacy::may_clean(p, s, Err(e))
}

/// A context item for which a capture may be refused so.
pub open spec fn context_may_fail(p: PolicyModel, x: ContextModel, e: PrivacyError) -> bool {
    &&& !privacy::ignored_path(p, x.file_path)
    &&& {
        ||| privacy::may_clean(p, x.file_path, Err(e))
        ||| (e == PrivacyError::Policy(PolicyFault::InvalidBlobOid) && (x.git_blob_sha matches Some(
            s,
        ) && !privacy::full_oid(s)))
        ||| opt_may_fail(p, x.dirty_patch, e)
    }
}

/// A tool execution for which a capture may be refused so.
pub open spec fn tool_may_fail(p: PolicyModel, x: ToolModel, e: PrivacyError) -> bool {
    ||| privacy::may_clean(p, x.tool_protocol, Err(e))
    ||| privacy::may_clean(p, x.tool_name, Err(e))
    ||| privacy::may_clean_text(p, x.arguments, Err(e))
}

/// Why a capture may be refused so.
pub open spec fn may_refuse(a: CaptureModel, e: PrivacyError) -> bool {
    let p = a.policy;
    if a.context_items.len() > MAX_CONTEXT || a.tool_executions.len() > MAX_TOOLS {
        e == PrivacyError::Policy(PolicyFault::CollectionLimit)
    } else if capture_bytes(a) > MAX_CAPTURE_BYTES {
        e == PrivacyError::TooLarge
    } else {
        ||| privacy::may_clean(p, a.conversation.title, Err(e))
        ||| (e == PrivacyError::Policy(PolicyFault::UnsafeConversationId) && (!privacy::safe_identifier(
            a.conversation.id,
        ) || a.interaction.conversation_id != a.conversation.id))
        ||| (e == PrivacyError::Policy(PolicyFault::UnsafeRequestId) && (
        a.interaction.source_request_id matches Some(s) && !privacy::safe_identifier(s)))
        ||| (a.interaction.source_request_id matches Some(s) && privacy::may_scrub(s, Err(e)))
        ||| privacy::may_clean(p, a.interaction.user_prompt, Err(e))
        ||| opt_may_fail(p, a.interaction.model_name, e)
        ||| opt_may_fail(p, a.interaction.model_cot, e)
        ||| opt_may_fail(p, a.interaction.model_response, e)
        ||| exists|i: int|
            0 <= i < a.context_items.len() && context_may_fail(p, #[trigger] a.context_items[i], e)
        ||| exists|i: int|
            0 <= i < a.tool_executions.len() && tool_may_fail(
                p,
                #[trigger] a.tool_executions[i],
                e,
            )
    }
}

fn clean_request(a: &Option<String>) -> (r: Result<Option<String>, PrivacyError>)
    ensures
        match r {
            Ok(b) => may_keep_request(models::opt_text(*a), models::opt_text(b)),
            Err(e) => a matches Some(s) && ((e == PrivacyError::Policy(PolicyFault::UnsafeRequestId)
                && !privacy::safe_identifier(s@)) || privacy::may_scrub(s@, Err(e))),
        },
{
    match a {
        None => Ok(None),
        Some(s) => {
            if !is_safe_identifier(s.as_str()) {
                return Err(PrivacyError::Policy(PolicyFault::UnsafeRequestId));
            }
            match scrub(s.as_str()) {
                Ok(t) => Ok(Some(t)),
                Err(e) => Err(e),
            }
        },
    }
}

/// What the policy leaves of the context items.
fn clean_contexts(policy: &ThoughtIgnore, items: &Vec<ContextItem>) -> (r: Result<
    Vec<ContextItem>,
    PrivacyError,
>)
    ensures
        match r {
            Ok(v) => may_keep_contexts(
                policy@,
                models::context_models(items@),
                items@.len(),
                models::context_models(v@),
            ),
            Err(e) => exists|i: int|
                0 <= i < models::context_models(items@).len() && context_may_fail(
                    policy@,
                    #[trigger] models::context_models(items@)[i],
                    e,
                ),
        },
{
    let ghost p = policy@;
    let ghost xs = models::context_models(items@);
    let mut out: Vec<ContextItem> = Vec::new();
    let mut i: usize = 0;
    assert(models::context_models(out@).len() == 0);
    while i < items.len()
        invariant
            i <= items.len(),
            p == policy@,
            xs == models::context_models(items@),
            may_keep_contexts(p, xs, i as nat, models::context_models(out@)),
        decreases items.len() - i,
    {
        let x = &items[i];
        assert(xs[i as int] == x@);
        let ghost held = models::context_models(out@);
        if !policy.ignores_path(x.file_path.as_str()) {
            let path = match policy.scrub(x.file_path.as_str()) {
                Ok(s) => s,
                Err(e) => {
                    assert(context_may_fail(p, models::context_models(items@)[i as int], e));
                    return Err(e);
                },
            };
            let oid_ok = match &x.git_blob_sha {
                Some(s) => is_oid(s.as_str()),
                None => true,
            };
            if !oid_ok {
                let e = PrivacyError::Policy(PolicyFault::InvalidBlobOid);
                assert(context_may_fail(p, models::context_models(items@)[i as int], e));
                return Err(e);
            }
            let patch = match clean_opt(policy, &x.dirty_patch) {
                Ok(s) => s,
                Err(e) => {
                    assert(context_may_fail(p, models::context_models(items@)[i as int], e));
                    return Err(e);
                },
            };
            let empty = path.as_str().is_empty();
            if !empty {
                let y = ContextItem {
                    id: x.id,
                    interaction_id: x.interaction_id,
                    file_path: path,
                    git_blob_sha: copy_opt_text(&x.git_blob_sha),
                    dirty_patch: patch,
                    start_line: x.start_line,
                    end_line: x.end_line,
                };
                let ghost ym = y@;
                out.push(y);
                proof {
                    assert(models::context_models(out@) =~= held.push(ym));
                    assert(models::context_models(out@).drop_last() =~= held);
                    assert(models::context_models(out@).last() == ym);
                    assert(may_keep_context(p, xs[i as int], ym));
                }
            } else {
                assert(path@ =~= Seq::<char>::empty());
                assert(may_drop_context(p, xs[i as int]));
            }
        } else {
            assert(may_drop_context(p, xs[i as int]));
        }
        i += 1;
    }
    Ok(out)
}

fn clean_tools(policy: &ThoughtIgnore, items: &Vec<ToolExecution>) -> (r: Result<
    Vec<ToolExecution>,
    PrivacyError,
>)
    ensures
        match r {
            Ok(v) => may_keep_tools(policy@, models::tool_models(items@), models::tool_models(v@)),
            Err(e) => exists|i: int|
                0 <= i < models::tool_models(items@).len() && tool_may_fail(
                    policy@,
                    #[trigger] models::tool_models(items@)[i],
                    e,
                ),
        },
{
    let ghost p = policy@;
    let ghost xs = models::tool_models(items@);
    let mut out: Vec<ToolExecution> = Vec::new();
    let mut i: usize = 0;
    while i < items.len()
        invariant
            i <= items.len(),
            p == policy@,
            xs == models::tool_models(items@),
            out.len() == i,
            forall|k: int| 0 <= k < i ==> may_keep_tool(p, xs[k], (#[trigger] out@[k])@),
        decreases items.len() - i,
    {
        let x = &items[i];
        assert(xs[i as int] == x@);
        let tool_protocol = match policy.scrub(x.tool_protocol.as_str()) {
            Ok(s) => s,
            Err(e) => {
                assert(tool_may_fail(p, models::tool_models(items@)[i as int], e));
                return Err(e);
            },
        };
        let tool_name = match policy.scrub(x.tool_name.as_str()) {
            Ok(s) => s,
            Err(e) => {
                assert(tool_may_fail(p, models::tool_models(items@)[i as int], e));
                return Err(e);
            },
        };
        let arguments = match scrub_json_with_policy(x.arguments.as_str(), policy) {
            Ok(s) => s,
            Err(e) => {
                assert(tool_may_fail(p, models::tool_models(items@)[i as int], e));
                return Err(e);
            },
        };
        out.push(
            ToolExecution {
                id: x.id,
                interaction_id: x.interaction_id,
                tool_protocol,
                tool_name,
                arguments,
                status: x.status,
            },
        );
        i += 1;
    }
    proof {
        let ys = models::tool_models(out@);
        assert forall|k: int| 0 <= k < xs.len() implies may_keep_tool(p, xs[k], #[trigger] ys[k]) by {
            assert(ys[k] == out@[k]@);
        }
    }
    Ok(out)
}

/// Turns a capture into what may be stored.
pub fn prepare(capture: Capture) -> (r: Result<Capture, PrivacyError>)
    ensures
        match r {
            Ok(c) => may_prepare(capture@, c@),
            Err(e) => may_refuse(capture@, e),
        },
{
    let ghost a = capture@;
    assert(a.context_items.len() == capture.context_items@.len());
    assert(a.tool_executions.len() == capture.tool_executions@.len());
    if capture.context_items.len() > MAX_CONTEXT || capture.tool_executions.len() > MAX_TOOLS {
        return Err(PrivacyError::Policy(PolicyFault::CollectionLimit));
    }
    if !within_budget(&capture) {
        return Err(PrivacyError::TooLarge);
    }
    let policy = &capture.policy.rules;
    let title = match policy.scrub(capture.conversation.title.as_str()) {
        Ok(s) => s,
        Err(e) => {
            return Err(e);
        },
    };
    if !is_safe_identifier(capture.conversation.id.as_str())
        || capture.interaction.conversation_id != capture.conversation.id {
        return Err(PrivacyError::Policy(PolicyFault::UnsafeConversationId));
    }
    let source_request_id = match clean_request(&capture.interaction.source_request_id) {
        Ok(s) => s,
        Err(e) => {
            return Err(e);
        },
    };
    let user_prompt = match policy.scrub(capture.interaction.user_prompt.as_str()) {
        Ok(s) => s,
        Err(e) => {
            return Err(e);
        },
    };
    let model_name = match clean_opt(policy, &capture.interaction.model_name) {
        Ok(s) => s,
        Err(e) => {
            return Err(e);
        },
    };
    let model_cot = match clean_opt(policy, &capture.interaction.model_cot) {
        Ok(s) => s,
        Err(e) => {
            return Err(e);
        },
    };
    let model_response = match clean_opt(policy, &capture.interaction.model_response) {
        Ok(s) => s,
        Err(e) => {
            return Err(e);
        },
    };
    let context_items = match clean_contexts(policy, &capture.context_items) {
        Ok(v) => v,
        Err(e) => {
            return Err(e);
        },
    };
    let tool_executions = match clean_tools(policy, &capture.tool_executions) {
        Ok(v) => v,
        Err(e) => {
            return Err(e);
        },
    };
    let conversation = Conversation {
        id: capture.conversation.id,
        title,
        created_at: capture.conversation.created_at,
    };
    let interaction = Interaction {
        id: capture.interaction.id,
        conversation_id: capture.interaction.conversation_id,
        parent_id: capture.interaction.parent_id,
        timestamp: capture.interaction.timestamp,
        author: capture.interaction.author,
        user_prompt,
        model_name,
        model_cot,
        model_response,
        source_request_id,
    };
    Ok(
        Capture {
            conversation,
            interaction,
            context_items,
            tool_executions,
            source: capture.source,
            policy: capture.policy,
        },
    )
}

/// What the last guard may make of an interaction.
pub open spec fn may_guard_interaction(a: InteractionModel, b: InteractionModel) -> bool {
    let p = privacy::no_policy();
    &&& privacy::may_clean(p, a.conversation_id, Ok(b.conversation_id))
    &&& privacy::may_clean_opt(p, a.source_request_id, b.source_request_id)
    &&& privacy::may_clean(p, a.user_prompt, Ok(b.user_prompt))
    &&& privacy::may_clean_opt(p, a.model_name, b.model_name)
    &&& privacy::may_clean_opt(p, a.model_cot, b.model_cot)
    &&& privacy::may_clean_opt(p, a.model_response, b.model_response)
    &&& b.id == a.id
    &&& b.parent_id == a.parent_id
    &&& b.timestamp == a.timestamp
    &&& b.author == a.author
}

/// What the last guard may make of a context item.
pub open spec fn may_guard_context(a: ContextModel, b: ContextModel) -> bool {
    let p = privacy::no_policy();
    &&& privacy::may_clean(p, a.file_path, Ok(b.file_path))
    &&& privacy::may_clean_opt(p, a.dirty_patch, b.dirty_patch)
    &&& b.id == a.id
    &&& b.interaction_id == a.interaction_id
    &&& b.git_blob_sha == a.git_blob_sha
    &&& b.start_line == a.start_line
    &&& b.end_line == a.end_line
}

/// What the last guard may make of a list of context items.
pub open spec fn may_guard_contexts(xs: Seq<ContextModel>, ys: Seq<ContextModel>) -> bool {
    &&& ys.len() == xs.len()
    &&& forall|i: int| 0 <= i < xs.len() ==> may_guard_context(xs[i], #[trigger] ys[i])
}

/// What the last guard may make of a node. Links are not touched by it.
pub open spec fn may_guard(a: NodeModel, b: NodeModel) -> bool {
    &&& may_guard_interaction(a.interaction, b.interaction)
    &&& may_guard_contexts(a.context_items, b.context_items)
    &&& may_keep_tools(privacy::no_policy(), a.tool_executions, b.tool_executions)
    &&& b.artifact_links == a.artifact_links
}

/// A text of a node on which the last guard may fail so.
pub open spec fn guard_may_fail(a: NodeModel, e: PrivacyError) -> bool {
    let p = privacy::no_policy();
    ||| privacy::may_clean(p, a.interaction.conversation_id, Err(e))
    ||| opt_may_fail(p, a.interaction.source_request_id, e)
    ||| privacy::may_clean(p, a.interaction.user_prompt, Err(e))
    ||| opt_may_fail(p, a.interaction.model_name, e)
    ||| opt_may_fail(p, a.interaction.model_cot, e)
    ||| opt_may_fail(p, a.interaction.model_response, e)
    ||| exists|i: int|
        0 <= i < a.context_items.len() && (privacy::may_clean(
            p,
            (#[trigger] a.context_items[i]).file_path,
            Err(e),
        ) || opt_may_fail(p, a.context_items[i].dirty_patch, e))
    ||| exists|i: int|
        0 <= i < a.tool_executions.len() && tool_may_fail(p, #[trigger] a.tool_executions[i], e)
}

/// Defense-in-depth serialization boundary for data which may predate capture v1.
/// It deliberately has no repository policy: policy controls capture, while this
/// guard ensures no raw known-secret reaches a Git blob.
pub fn final_scrub_for_sync(node: &SyncNode) -> (r: Result<SyncNode, PrivacyError>)
    ensures
        match r {
            Ok(n) => may_guard(node@, n@),
            Err(e) => guard_may_fail(node@, e),
        },
{
    let policy = ThoughtIgnore::default();
    let ghost a = node@;
    let it = &node.interaction;
    let conversation_id = match policy.scrub(it.conversation_id.as_str()) {
        Ok(s) => s,
        Err(e) => {
            return Err(e);
        },
    };
    let source_request_id = match clean_opt(&policy, &it.source_request_id) {
        Ok(s) => s,
        Err(e) => {
            return Err(e);
        },
    };
    let user_prompt = match policy.scrub(it.user_prompt.as_str()) {
        Ok(s) => s,
        Err(e) => {
            return Err(e);
        },
    };
    let model_name = match clean_opt(&policy, &it.model_name) {
        Ok(s) => s,
        Err(e) => {
            return Err(e);
        },
    };
    let model_cot = match clean_opt(&policy, &it.model_cot) {
        Ok(s) => s,
        Err(e) => {
            return Err(e);
        },
    };
    let model_response = match clean_opt(&policy, &it.model_response) {
        Ok(s) => s,
        Err(e) => {
            return Err(e);
        },
    };
    let ghost xs = a.context_items;
    let mut context_items: Vec<ContextItem> = Vec::new();
    let mut i: usize = 0;
    while i < node.context_items.len()
        invariant
            i <= node.context_items.len(),
            policy@ == privacy::no_policy(),
            a == node@,
            xs == a.context_items,
            xs == models::context_models(node.context_items@),
            context_items.len() == i,
            forall|k: int|
                0 <= k < i ==> may_guard_context(xs[k], (#[trigger] context_items@[k])@),
        decreases node.context_items.len() - i,
    {
        let x = &node.context_items[i];
        assert(xs[i as int] == x@);
        let file_path = match policy.scrub(x.file_path.as_str()) {
            Ok(s) => s,
            Err(e) => {
                assert(privacy::may_clean(privacy::no_policy(), a.context_items[i as int].file_path, Err(e)));
                return Err(e);
            },
        };
        let dirty_patch = match clean_opt(&policy, &x.dirty_patch) {
            Ok(s) => s,
            Err(e) => {
                assert(opt_may_fail(privacy::no_policy(), a.context_items[i as int].dirty_patch, e));
                return Err(e);
            },
        };
        context_items.push(
            ContextItem {
                id: x.id,
                interaction_id: x.interaction_id,
                file_path,
                git_blob_sha: copy_opt_text(&x.git_blob_sha),
                dirty_patch,
                start_line: x.start_line,
                end_line: x.end_line,
            },
        );
        i += 1;
    }
    proof {
        let ys = models::context_models(context_items@);
        assert forall|k: int| 0 <= k < xs.len() implies may_guard_context(
            xs[k],
            #[trigger] ys[k],
        ) by {
            assert(ys[k] == context_items@[k]@);
        }
    }
    let tool_executions = match clean_tools(&policy, &node.tool_executions) {
        Ok(v) => v,
        Err(e) => {
            proof {
                let ts = models::tool_models(node.tool_executions@);
                let k = choose|k: int|
                    0 <= k < ts.len() && tool_may_fail(policy@, #[trigger] ts[k], e);
                assert(tool_may_fail(privacy::no_policy(), a.tool_executions[k], e));
            }
            return Err(e);
        },
    };
    Ok(
        SyncNode {
            interaction: Interaction {
                id: it.id,
                conversation_id,
                parent_id: it.parent_id,
                timestamp: it.timestamp,
                author: it.author,
                user_prompt,
                model_name,
                model_cot,
                model_response,
                source_request_id,
            },
            context_items,
            tool_executions,
            artifact_links: copy_links(&node.artifact_links),
        },
    )
}

/// What the last guard may make of a link.
pub open spec fn may_guard_link(a: LinkModel, b: LinkModel) -> bool {
    &&& privacy::full_oid(a.git_commit_hash)
    &&& sync::embedded_link_type(a.link_type)
    &&& b.interaction_id == a.interaction_id
    &&& b.git_commit_hash == a.git_commit_hash
    &&& b.link_type == a.link_type
    &&& privacy::may_clean_opt(privacy::no_policy(), a.linked_by, b.linked_by)
}

/// What the last guard may make of links.
pub open spec fn may_guard_links(xs: Seq<LinkModel>, ys: Seq<LinkModel>) -> bool {
    xs.len() == ys.len() && forall|i: int|
        0 <= i < xs.len() ==> may_guard_link(xs[i], #[trigger] ys[i])
}

/// A link for which the last guard may fail so.
pub open spec fn link_may_fail(a: LinkModel, e: PrivacyError) -> bool {
    ||| (e == PrivacyError::Policy(PolicyFault::InvalidLinkOid) && !privacy::full_oid(a.git_commit_hash))
    ||| (e == PrivacyError::Policy(PolicyFault::InvalidLinkType) && privacy::full_oid(a.git_commit_hash)
        && !sync::embedded_link_type(a.link_type))
    ||| opt_may_fail(privacy::no_policy(), a.linked_by, e)
}

/// Checks links and scrubs who made them.
pub fn final_validate_links(links: &Vec<ArtifactLink>) -> (r: Result<Vec<ArtifactLink>, PrivacyError>)
    ensures
        match r {
            Ok(v) => v@.len() == links@.len() && forall|i: int|
                0 <= i < links@.len() ==> may_guard_link(links@[i]@, (#[trigger] v@[i])@),
            Err(e) => exists|i: int| 0 <= i < links@.len() && link_may_fail((#[trigger] links@[i])@, e),
        },
{
    let policy = ThoughtIgnore::default();
    let mut out: Vec<ArtifactLink> = Vec::new();
    let mut i: usize = 0;
    while i < links.len()
        invariant
            i <= links.len(),
            policy@ == privacy::no_policy(),
            out.len() == i,
            forall|k: int| 0 <= k < i ==> may_guard_link(links@[k]@, (#[trigger] out@[k])@),
        decreases links.len() - i,
    {
        let link = &links[i];
        if !is_oid(link.git_commit_hash.as_str()) {
            assert(link_may_fail(
                links@[i as int]@,
                PrivacyError::Policy(PolicyFault::InvalidLinkOid),
            ));
            return Err(PrivacyError::Policy(PolicyFault::InvalidLinkOid));
        }
        let kind = link.link_type.as_str();
        if !(text_equal(kind, "generated") || text_equal(kind, "temporal") || text_equal(
            kind,
            "verified",
        )) {
            assert(link_may_fail(
                links@[i as int]@,
                PrivacyError::Policy(PolicyFault::InvalidLinkType),
            ));
            return Err(PrivacyError::Policy(PolicyFault::InvalidLinkType));
        }
        let linked_by = match clean_opt(&policy, &link.linked_by) {
            Ok(s) => s,
            Err(e) => {
                assert(link_may_fail(links@[i as int]@, e));
                return Err(e);
            },
        };
        out.push(
            ArtifactLink {
                interaction_id: link.interaction_id,
                git_commit_hash: link.git_commit_hash.clone(),
                link_type: link.link_type.clone(),
                linked_by,
            },
        );
        i += 1;
    }
    Ok(out)
}

/// A capture by a tool server.
pub struct McpCapture {
    pub capture: Capture,
}

impl McpCapture {
    pub fn new(
        conversation: Conversation,
        interaction: Interaction,
        context_items: Vec<ContextItem>,
        tool_executions: Vec<ToolExecution>,
        policy: PreparedPolicy,
    ) -> (r: Self)
        ensures
            r.capture@ == (CaptureModel {
                conversation: conversation@,
                interaction: interaction@,
                context_items: models::context_models(context_items@),
                tool_executions: models::tool_models(tool_executions@),
                source: CaptureSource::Mcp,
                policy: policy.rules@,
            }),
    {
        McpCapture {
            capture: Capture {
                conversation,
                interaction,
                context_items,
                tool_executions,
                source: CaptureSource::Mcp,
                policy,
            },
        }
    }

    pub fn into_capture(self) -> (r: Capture)
        ensures
            r == self.capture,
    {
        self.capture
    }
}

/// A capture of a command line run.
pub struct CliRunCapture {
    pub capture: Capture,
}

impl CliRunCapture {
    pub fn new(
        conversation: Conversation,
        interaction: Interaction,
        context_items: Vec<ContextItem>,
        tool_executions: Vec<ToolExecution>,
        policy: PreparedPolicy,
    ) -> (r: Self)
        ensures
            r.capture@ == (CaptureModel {
                conversation: conversation@,
                interaction: interaction@,
                context_items: models::context_models(context_items@),
                tool_executions: models::tool_models(tool_executions@),
                source: CaptureSource::CliRun,
                policy: policy.rules@,
            }),
    {
        CliRunCapture {
            capture: Capture {
                conversation,
                interaction,
                context_items,
                tool_executions,
                source: CaptureSource::CliRun,
                policy,
            },
        }
    }

    pub fn into_capture(self) -> (r: Capture)
        ensures
            r == self.capture,
    {
        self.capture
    }
}

/// A capture observed in an editor.
pub struct LspPassiveCapture {
    pub capture: Capture,
}

impl LspPassiveCapture {
    pub fn new(
        conversation: Conversation,
        interaction: Interaction,
        context_items: Vec<ContextItem>,
        tool_executions: Vec<ToolExecution>,
        policy: PreparedPolicy,
    ) -> (r: Self)
        ensures
            r.capture@ == (CaptureModel {
                conversation: conversation@,
                interaction: interaction@,
                context_items: models::context_models(context_items@),
                tool_executions: models::tool_models(tool_executions@),
                source: CaptureSource::VscodePassive,
                policy: policy.rules@,
            }),
    {
        LspPassiveCapture {
            capture: Capture {
                conversation,
                interaction,
                context_items,
                tool_executions,
                source: CaptureSource::VscodePassive,
                policy,
            },
        }
    }

    pub fn into_capture(self) -> (r: Capture)
        ensures
            r == self.capture,
    {
        self.capture
    }
}

/// A capture that an editor was asked for.
pub struct LspExplicitCapture {
    pub capture: Capture,
}

impl LspExplicitCapture {
    pub fn new(
        conversation: Conversation,
        interaction: Interaction,
        context_items: Vec<ContextItem>,
        tool_executions: Vec<ToolExecution>,
        policy: PreparedPolicy,
    ) -> (r: Self)
        ensures
            r.capture@ == (CaptureModel {
                conversation: conversation@,
                interaction: interaction@,
                context_items: models::context_models(context_items@),
                tool_executions: models::tool_models(tool_executions@),
                source: CaptureSource::VscodeExplicit,
                policy: policy.rules@,
            }),
    {
        LspExplicitCapture {
            capture: Capture {
                conversation,
                interaction,
                context_items,
                tool_executions,
                source: CaptureSource::VscodeExplicit,
                policy,
            },
        }
    }

    pub fn into_capture(self) -> (r: Capture)
        ensures
            r == self.capture,
    {
        self.capture
    }
}

} // verus!
