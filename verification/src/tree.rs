//! The layout of an exchange tree as plain values, and the reading of each of
//! its namespaces under bounds.

use crate::derivation;
use crate::derivation::{
    attribution_ok, canonical_id_text, is_automatic_link_type, is_safe_commit_sha,
    validate_derivation_event,
};
use crate::digest;
use crate::digest::{any_hex, lower_hex, put_bytes};
use crate::fault::SyncError;
use crate::models;
use crate::models::{
    ArtifactLink, ContextItem, ContextModel, DerivationEvent, EventModel, Interaction,
    InteractionId, InteractionModel, LinkModel, RangeEvidence, RangeModel, Tombstone,
    TombstoneModel, ToolExecution, ToolModel, copy_contexts, copy_links, copy_opt_text,
    copy_tools, opt_text_equal, parse_uuid, same_contexts, same_links, same_tools,
};
use crate::text;
use crate::text::{bytes_equal, chars_of, ends_with, glue3, starts_with, text_equal, text_of};
use crate::textset::TextSet;
use vstd::hash_map::StringHashMap;
use vstd::hash_set::StringHashSet;
use vstd::prelude::*;
use vstd::string::*;
use vstd::utf8::*;

verus! {

pub const MAX_SYNC_NODES: usize = 10_000;

pub const MAX_SYNC_BLOB_BYTES: usize = 4_194_304;

pub const MAX_SYNC_TOTAL_BYTES: usize = 134_217_728;

pub const MAX_SYNC_LINK_EVENTS: usize = 20_000;

pub const MAX_SYNC_DERIVATION_EVENTS: usize = 20_000;

pub const MAX_SYNC_RANGES: usize = 10_000;

pub const MAX_SYNC_TOMBSTONES: usize = 4_096;

pub const MAX_SYNC_TOMBSTONE_BYTES: usize = 16_384;

pub const MAX_SYNC_LINKS_PER_NODE: usize = 256;

pub const MAX_SYNC_CONTEXT_ITEMS: usize = 100_000;

pub const MAX_SYNC_TOOL_EXECUTIONS: usize = 100_000;

pub const MAX_SYNC_EMBEDDED_LINKS: usize = 100_000;

pub const MAX_BY_COMMIT_POINTERS: usize = 100_000;

/// Bounds used while decoding an untrusted sync tree.  The default is the
/// production policy; the explicit form also lets callers exercise rejection
/// paths without constructing multi-gigabyte Git fixtures.
#[derive(Clone, Copy, Debug, PartialEq, Eq, Structural)]
pub struct SyncReadLimits {
    pub max_tombstones: usize,
    pub max_tombstone_bytes: usize,
    pub max_total_bytes: usize,
}

impl Default for SyncReadLimits {
    fn default() -> (r: Self)
        ensures
            r.max_tombstones == MAX_SYNC_TOMBSTONES,
            r.max_tombstone_bytes == MAX_SYNC_TOMBSTONE_BYTES,
            r.max_total_bytes == MAX_SYNC_TOTAL_BYTES,
    {
        SyncReadLimits {
            max_tombstones: MAX_SYNC_TOMBSTONES,
            max_tombstone_bytes: MAX_SYNC_TOMBSTONE_BYTES,
            max_total_bytes: MAX_SYNC_TOTAL_BYTES,
        }
    }
}

/// What a tree entry is.
#[derive(Clone, Copy, Debug, PartialEq, Eq, Structural)]
pub enum EntryKind {
    Blob,
    Tree,
    Other,
}

/// An entry at the second level of a namespace: a blob and the record it
/// decodes to, if it does.
pub struct Leaf<T> {
    pub name: String,
    pub kind: EntryKind,
    pub body: Vec<u8>,
    pub record: Option<T>,
}

/// An entry at the first level of a namespace.
pub struct Shard<T> {
    pub name: String,
    pub kind: EntryKind,
    pub leaves: Vec<Leaf<T>>,
}

/// One of the reserved names at the root of the tree.
pub struct Namespace<T> {
    pub kind: EntryKind,
    pub shards: Vec<Shard<T>>,
}

/// The contents of [`Leaf`].
#[verifier::ext_equal]
pub struct LeafModel<M> {
    pub name: Seq<char>,
    pub kind: EntryKind,
    pub body: Seq<u8>,
    pub record: Option<M>,
}

/// The contents of [`Shard`].
#[verifier::ext_equal]
pub struct ShardModel<M> {
    pub name: Seq<char>,
    pub kind: EntryKind,
    pub leaves: Seq<LeafModel<M>>,
}

/// The contents of [`Namespace`].
#[verifier::ext_equal]
pub struct NamespaceModel<M> {
    pub kind: EntryKind,
    pub shards: Seq<ShardModel<M>>,
}

impl<T: View> View for Leaf<T> {
    type V = LeafModel<T::V>;

    open spec fn view(&self) -> LeafModel<T::V> {
        LeafModel {
            name: self.name@,
            kind: self.kind,
            body: self.body@,
            record: match self.record {
                Some(r) => Some(r@),
                None => None,
            },
        }
    }
}

/// The contents of leaves.
pub open spec fn leaf_models<T: View>(s: Seq<Leaf<T>>) -> Seq<LeafModel<T::V>> {
    s.map_values(|x: Leaf<T>| x@)
}

impl<T: View> View for Shard<T> {
    type V = ShardModel<T::V>;

    open spec fn view(&self) -> ShardModel<T::V> {
        ShardModel { name: self.name@, kind: self.kind, leaves: leaf_models(self.leaves@) }
    }
}

/// The contents of shards.
pub open spec fn shard_models<T: View>(s: Seq<Shard<T>>) -> Seq<ShardModel<T::V>> {
    s.map_values(|x: Shard<T>| x@)
}

impl<T: View> View for Namespace<T> {
    type V = NamespaceModel<T::V>;

    open spec fn view(&self) -> NamespaceModel<T::V> {
        NamespaceModel { kind: self.kind, shards: shard_models(self.shards@) }
    }
}

/// The contents of a namespace that may be absent.
pub open spec fn opt_namespace<T: View>(o: Option<Namespace<T>>) -> Option<NamespaceModel<T::V>> {
    match o {
        Some(n) => Some(n@),
        None => None,
    }
}

/// One interaction with everything captured beside it.
#[derive(Debug)]
pub struct SyncNode {
    pub interaction: Interaction,
    pub context_items: Vec<ContextItem>,
    pub tool_executions: Vec<ToolExecution>,
    pub artifact_links: Vec<ArtifactLink>,
}

/// The contents of [`SyncNode`].
#[verifier::ext_equal]
pub struct NodeModel {
    pub interaction: InteractionModel,
    pub context_items: Seq<ContextModel>,
    pub tool_executions: Seq<ToolModel>,
    pub artifact_links: Seq<LinkModel>,
}

impl View for SyncNode {
    type V = NodeModel;

    open spec fn view(&self) -> NodeModel {
        NodeModel {
            interaction: self.interaction@,
            context_items: models::context_models(self.context_items@),
            tool_executions: models::tool_models(self.tool_executions@),
            artifact_links: models::link_models(self.artifact_links@),
        }
    }
}

impl Clone for SyncNode {
    fn clone(&self) -> (r: Self)
        ensures
            r@ == self@,
    {
        SyncNode {
            interaction: self.interaction.clone(),
            context_items: copy_contexts(&self.context_items),
            tool_executions: copy_tools(&self.tool_executions),
            artifact_links: copy_links(&self.artifact_links),
        }
    }
}

impl SyncNode {
    /// Whether two records agree in every field.
    pub fn same(&self, other: &Self) -> (r: bool)
        ensures
            r == (self@ == other@),
    {
        self.interaction.same(&other.interaction)
            && same_contexts(&self.context_items, &other.context_items)
            && same_tools(&self.tool_executions, &other.tool_executions)
            && same_links(&self.artifact_links, &other.artifact_links)
    }
}

/// Immutable post-node link event. Node blobs remain immutable, so links made
/// after a floating node was first pushed are represented here instead.
#[derive(Debug)]
pub struct SyncLinkRecord {
    pub interaction_id: String,
    pub git_commit_hash: String,
    pub link_type: String,
    pub linked_by: Option<String>,
}

/// The contents of [`SyncLinkRecord`].
#[verifier::ext_equal]
pub struct LinkRecordModel {
    pub interaction_id: Seq<char>,
    pub git_commit_hash: Seq<char>,
    pub link_type: Seq<char>,
    pub linked_by: Option<Seq<char>>,
}

impl View for SyncLinkRecord {
    type V = LinkRecordModel;

    open spec fn view(&self) -> LinkRecordModel {
        LinkRecordModel {
            interaction_id: self.interaction_id@,
            git_commit_hash: self.git_commit_hash@,
            link_type: self.link_type@,
            linked_by: models::opt_text(self.linked_by),
        }
    }
}

impl Clone for SyncLinkRecord {
    fn clone(&self) -> (r: Self)
        ensures
            r@ == self@,
    {
        SyncLinkRecord {
            interaction_id: self.interaction_id.clone(),
            git_commit_hash: self.git_commit_hash.clone(),
            link_type: self.link_type.clone(),
            linked_by: copy_opt_text(&self.linked_by),
        }
    }
}

impl SyncLinkRecord {
    /// Whether two records agree in every field.
    pub fn same(&self, other: &Self) -> (r: bool)
        ensures
            r == (self@ == other@),
    {
        self.interaction_id == other.interaction_id
            && self.git_commit_hash == other.git_commit_hash
            && self.link_type == other.link_type
            && opt_text_equal(&self.linked_by, &other.linked_by)
    }
}

/// The contents of a list of records.
pub open spec fn link_record_models(s: Seq<SyncLinkRecord>) -> Seq<LinkRecordModel> {
    s.map_values(|x: SyncLinkRecord| x@)
}

/// Whether two link records agree.
pub fn link_record_equal(left: &SyncLinkRecord, right: &SyncLinkRecord) -> (r: bool)
    ensures
        r == (left@ == right@),
{
    left.same(right)
}

/// The bytes read so far after reading `amount` more.
pub open spec fn charged(total: int, amount: int, max: int) -> Result<int, SyncError> {
    if total + amount > usize::MAX {
        Err(SyncError::ByteCountOverflow)
    } else if total + amount > max {
        Err(SyncError::TotalTooLarge)
    } else {
        Ok(total + amount)
    }
}

/// Counts bytes against a total.
pub fn add_sync_bytes(total: &mut usize, amount: usize, max_total_bytes: usize) -> (r: Result<
    (),
    SyncError,
>)
    ensures
        match charged(*old(total) as int, amount as int, max_total_bytes as int) {
            Ok(t) => r == Ok::<(), SyncError>(()) && *final(total) == t,
            Err(f) => r == Err::<(), SyncError>(f) && *final(total) == (if f
                == SyncError::TotalTooLarge {
                *old(total) + amount
            } else {
                *old(total) as int
            }),
        },
{
    match total.checked_add(amount) {
        None => Err(SyncError::ByteCountOverflow),
        Some(t) => {
            *total = t;
            if t > max_total_bytes {
                Err(SyncError::TotalTooLarge)
            } else {
                Ok(())
            }
        },
    }
}

/// The part of a file name before `.json`.
pub open spec fn json_stem(name: Seq<char>) -> Option<Seq<char>> {
    if text::has_suffix(name, ".json"@) {
        Some(name.take(name.len() - 5))
    } else {
        None
    }
}

/// The part of a file name before `.json`.
pub fn strip_json(name: &str) -> (r: Option<String>)
    ensures
        match r {
            Some(s) => json_stem(name@) == Some(s@),
            None => json_stem(name@) is None,
        },
{
    if !ends_with(name, ".json") {
        return None;
    }
    proof {
        reveal_strlit(".json");
    }
    let chars = chars_of(name);
    let stem = text_of(chars.as_slice(), 0, chars.len() - 5);
    assert(stem@ =~= name@.take(name@.len() - 5));
    Some(stem)
}

/// The first two characters of an identifier, which name its shard. Mirrors
/// the fan-out of Git's own object store so that listings stay small.
pub fn shard_prefix(id: &str) -> (r: String)
    requires
        id@.len() >= 2,
        vstd::utf8::is_ascii_chars(id@.take(2)),
    ensures
        r@ == id@.take(2),
{
    let chars = chars_of(id);
    let r = text_of(chars.as_slice(), 0, 2);
    assert(r@ =~= id@.take(2));
    r
}

/// Whether the text starts with the two characters of its shard.
pub fn in_shard(id: &str, shard: &str) -> (r: bool)
    requires
        shard@.len() == 2,
    ensures
        r == (id@.len() >= 2 && id@.take(2) == shard@),
{
    starts_with(id, shard)
}

/// A tombstone that may be exchanged.
pub open spec fn valid_tombstone(t: TombstoneModel) -> bool {
    &&& t.format == "cvc.tombstone/v1"@
    &&& t.version == 1
    &&& t.deleted_at.seconds >= 0
    &&& match t.previous_node_oid {
        Some(oid) => derivation::is_commit_sha(oid),
        None => true,
    }
}

/// Checks a tombstone.
pub fn validate_tombstone(t: &Tombstone) -> (r: Result<(), SyncError>)
    ensures
        r == (if valid_tombstone(t@) {
            Ok::<(), SyncError>(())
        } else {
            Err::<(), SyncError>(SyncError::InvalidTombstone)
        }),
{
    let oid_ok = match &t.previous_node_oid {
        Some(oid) => is_safe_commit_sha(oid.as_str()),
        None => true,
    };
    if !text_equal(t.format.as_str(), "cvc.tombstone/v1") || t.version != 1 || t.deleted_at.seconds
        < 0 || !oid_ok {
        return Err(SyncError::InvalidTombstone);
    }
    Ok(())
}

/// The first record of an interaction.
pub open spec fn find_tombstone(s: Seq<TombstoneModel>, id: InteractionId, k: int) -> Option<
    TombstoneModel,
>
    decreases s.len() - k,
{
    if k < 0 || k >= s.len() {
        None
    } else if s[k].interaction_id == id {
        Some(s[k])
    } else {
        find_tombstone(s, id, k + 1)
    }
}

/// The distinct records from position `i` on, behind those already accepted;
/// equal repeats are dropped and conflicting ones refused.
pub open spec fn distinct_tombstones(
    s: Seq<TombstoneModel>,
    i: int,
    accepted: Seq<TombstoneModel>,
) -> Result<Seq<TombstoneModel>, SyncError>
    decreases s.len() - i,
{
    if i < 0 || i >= s.len() {
        Ok(accepted)
    } else if !valid_tombstone(s[i]) {
        Err(SyncError::InvalidTombstone)
    } else {
        match find_tombstone(accepted, s[i].interaction_id, 0) {
            Some(t) => if t != s[i] {
                Err(SyncError::ConflictingTombstones)
            } else {
                distinct_tombstones(s, i + 1, accepted)
            },
            None => distinct_tombstones(s, i + 1, accepted.push(s[i])),
        }
    }
}

/// Canonicalize received tombstones by interaction ID.  Git's canonical shard
/// layout normally makes duplicate IDs unrepresentable, but this seam is also
/// used by alternate/importing transports where repeated records are possible.
/// Equal repeats are harmless; conflicting immutable records are rejected.
pub fn validate_tombstone_records(records: &Vec<Tombstone>) -> (r: Result<
    Vec<Tombstone>,
    SyncError,
>)
    ensures
        match distinct_tombstones(models::tombstone_models(records@), 0, Seq::empty()) {
            Ok(s) => r matches Ok(v) && models::tombstone_models(v@) == s,
            Err(f) => r matches Err(e) && e == f,
        },
{
    let ghost s = models::tombstone_models(records@);
    let mut unique: Vec<Tombstone> = Vec::new();
    let mut i: usize = 0;
    assert(models::tombstone_models(unique@) =~= Seq::empty());
    while i < records.len()
        invariant
            i <= records.len(),
            s == models::tombstone_models(records@),
            distinct_tombstones(s, 0, Seq::empty()) == distinct_tombstones(
                s,
                i as int,
                models::tombstone_models(unique@),
            ),
        decreases records.len() - i,
    {
        let t = &records[i];
        assert(s[i as int] == t@);
        match validate_tombstone(t) {
            Ok(_) => {},
            Err(f) => {
                return Err(f);
            },
        }
        let ghost acc = models::tombstone_models(unique@);
        let mut k: usize = 0;
        let mut fresh = true;
        while k < unique.len()
            invariant_except_break
                fresh,
            invariant
                k <= unique.len(),
                acc == models::tombstone_models(unique@),
                find_tombstone(acc, t.interaction_id, 0) == find_tombstone(
                    acc,
                    t.interaction_id,
                    k as int,
                ),
            ensures
                fresh ==> find_tombstone(acc, t.interaction_id, 0) is None,
                !fresh ==> k < unique.len() && find_tombstone(acc, t.interaction_id, 0) == Some(
                    unique@[k as int]@,
                ),
            decreases unique.len() - k,
        {
            assert(acc[k as int] == unique@[k as int]@);
            if unique[k].interaction_id == t.interaction_id {
                fresh = false;
                break;
            }
            k += 1;
        }
        if fresh {
            unique.push(t.clone());
            assert(models::tombstone_models(unique@) =~= acc.push(s[i as int]));
        } else if !unique[k].same(t) {
            return Err(SyncError::ConflictingTombstones);
        }
        i += 1;
    }
    Ok(unique)
}

/// What reading events has found so far.
#[verifier::ext_equal]
pub struct EventScan {
    pub out: Seq<EventModel>,
    pub seen: Map<Seq<char>, Seq<u8>>,
    pub total: int,
}

/// Reading one event blob.
pub open spec fn event_leaf(shard: Seq<char>, leaf: LeafModel<EventModel>, st: EventScan, max: int) -> Result<
    EventScan,
    SyncError,
> {
    if st.out.len() >= MAX_SYNC_DERIVATION_EVENTS {
        Err(SyncError::TooManyEvents)
    } else {
        match json_stem(leaf.name) {
            None => Err(SyncError::InvalidEventFilename),
            Some(id) => if !digest::is_hex(id, 64) {
                Err(SyncError::InvalidEventFilename)
            } else if id.take(2) != shard || leaf.kind != EntryKind::Blob {
                Err(SyncError::EventPathMismatch)
            } else if leaf.body.len() > MAX_SYNC_BLOB_BYTES {
                Err(SyncError::EventTooLarge)
            } else {
                match charged(st.total, leaf.body.len() as int, max) {
                    Err(f) => Err(f),
                    Ok(total) => match leaf.record {
                        None => Err(SyncError::Malformed),
                        Some(record) => if record.event_id != id || !derivation::valid_event(record) {
                            Err(SyncError::EventBodyMismatch)
                        } else if st.seen.contains_key(id) {
                            if st.seen[id] != leaf.body {
                                Err(SyncError::ConflictingEvent)
                            } else {
                                Ok(EventScan { out: st.out, seen: st.seen, total })
                            }
                        } else {
                            Ok(
                                EventScan {
                                    out: st.out.push(record),
                                    seen: st.seen.insert(id, leaf.body),
                                    total,
                                },
                            )
                        },
                    },
                }
            },
        }
    }
}

/// Reading the event blobs of a shard from position `i` on.
pub open spec fn event_leaves(
    shard: Seq<char>,
    leaves: Seq<LeafModel<EventModel>>,
    i: int,
    st: EventScan,
    max: int,
) -> Result<EventScan, SyncError>
    decreases leaves.len() - i,
{
    if i < 0 || i >= leaves.len() {
        Ok(st)
    } else {
        match event_leaf(shard, leaves[i], st, max) {
            Err(f) => Err(f),
            Ok(next) => event_leaves(shard, leaves, i + 1, next, max),
        }
    }
}

/// Reading the event shards from position `k` on.
pub open spec fn event_shards(shards: Seq<ShardModel<EventModel>>, k: int, st: EventScan, max: int) -> Result<
    EventScan,
    SyncError,
>
    decreases shards.len() - k,
{
    if k < 0 || k >= shards.len() {
        Ok(st)
    } else if !digest::is_hex(shards[k].name, 2) || shards[k].kind != EntryKind::Tree {
        Err(SyncError::InvalidEventShard)
    } else {
        match event_leaves(shards[k].name, shards[k].leaves, 0, st, max) {
            Err(f) => Err(f),
            Ok(next) => event_shards(shards, k + 1, next, max),
        }
    }
}

/// Reading all events of a tree, starting with `total` bytes already read.
pub open spec fn read_events(ns: Option<NamespaceModel<EventModel>>, total: int, max: int) -> Result<
    EventScan,
    SyncError,
> {
    let start = EventScan { out: Seq::empty(), seen: Map::empty(), total };
    match ns {
        None => Ok(start),
        Some(n) => if n.kind != EntryKind::Tree {
            Ok(start)
        } else {
            event_shards(n.shards, 0, start, max)
        },
    }
}

/// The state of a running read.
spec fn event_state(
    out: Vec<DerivationEvent>,
    seen: StringHashMap<Vec<u8>>,
    total: usize,
    st: EventScan,
) -> bool {
    &&& derivation::models(out@) == st.out
    &&& total == st.total
    &&& forall|x: Seq<char>| #[trigger] st.seen.contains_key(x) <==> seen@.contains_key(x)
    &&& forall|x: Seq<char>| #[trigger] st.seen.contains_key(x) ==> st.seen[x] == seen@[x]@
}

fn read_event_shard(
    shard: &Shard<DerivationEvent>,
    out: &mut Vec<DerivationEvent>,
    seen: &mut StringHashMap<Vec<u8>>,
    decoded: &mut usize,
    max: usize,
    Ghost(st): Ghost<EventScan>,
) -> (r: Result<(), SyncError>)
    requires
        shard.name@.len() == 2,
        event_state(*old(out), *old(seen), *old(decoded), st),
    ensures
        match r {
            Ok(_) => {
                &&& event_leaves(shard.name@, shard@.leaves, 0, st, max as int) is Ok
                &&& event_state(
                    *final(out),
                    *final(seen),
                    *final(decoded),
                    event_leaves(shard.name@, shard@.leaves, 0, st, max as int)->Ok_0,
                )
            },
            Err(f) => event_leaves(shard.name@, shard@.leaves, 0, st, max as int) == Err::<
                EventScan,
                SyncError,
            >(f),
        },
{
    let ghost mut cur = st;
    let mut i: usize = 0;
    while i < shard.leaves.len()
        invariant
            i <= shard.leaves.len(),
            shard.name@.len() == 2,
            event_state(*out, *seen, *decoded, cur),
            event_leaves(shard.name@, shard@.leaves, 0, st, max as int) == event_leaves(
                shard.name@,
                shard@.leaves,
                i as int,
                cur,
                max as int,
            ),
        decreases shard.leaves.len() - i,
    {
        let leaf = &shard.leaves[i];
            assert(shard@.leaves[i as int] == leaf@);
        assert(cur.out.len() == out@.len());
        if out.len() >= MAX_SYNC_DERIVATION_EVENTS {
            return Err(SyncError::TooManyEvents);
        }
        let id = match strip_json(leaf.name.as_str()) {
            Some(id) => id,
            None => {
                return Err(SyncError::InvalidEventFilename);
            },
        };
        if !any_hex(id.as_str(), 64) {
            return Err(SyncError::InvalidEventFilename);
        }
        if !in_shard(id.as_str(), shard.name.as_str()) || leaf.kind != EntryKind::Blob {
            return Err(SyncError::EventPathMismatch);
        }
        if leaf.body.len() > MAX_SYNC_BLOB_BYTES {
            return Err(SyncError::EventTooLarge);
        }
        match add_sync_bytes(decoded, leaf.body.len(), max) {
            Ok(_) => {},
            Err(f) => {
                return Err(f);
            },
        }
        let record = match &leaf.record {
            Some(record) => record,
            None => {
                return Err(SyncError::Malformed);
            },
        };
        if record.event_id != id || !validate_derivation_event(record) {
            return Err(SyncError::EventBodyMismatch);
        }
        let ghost next = event_leaf(shard.name@, shard@.leaves[i as int], cur, max as int)->Ok_0;
        let known = match seen.get(id.as_str()) {
            Some(body) => {
                if !bytes_equal(body.as_slice(), leaf.body.as_slice()) {
                    assert(cur.seen.contains_key(id@));
                    return Err(SyncError::ConflictingEvent);
                }
                true
            },
            None => false,
        };
        assert(known == cur.seen.contains_key(id@));
        if !known {
            let mut body: Vec<u8> = Vec::new();
            put_bytes(&mut body, leaf.body.as_slice());
            assert(body@ =~= leaf.body@);
            out.push(record.clone());
            seen.insert(id, body);
            assert(derivation::models(out@) =~= cur.out.push(record@));
        }
        proof {
            cur = next;
        }
        i += 1;
    }
    Ok(())
}

/// Reads the events of a tree under bounds.
pub fn collect_derivation_events(ns: &Option<Namespace<DerivationEvent>>, decoded: &mut usize, max: usize) -> (r: Result<
    Vec<DerivationEvent>,
    SyncError,
>)
    ensures
        match read_events(opt_namespace(*ns), *old(decoded) as int, max as int) {
            Ok(st) => r matches Ok(v) && derivation::models(v@) == st.out && *final(decoded) == st.total,
            Err(f) => r matches Err(e) && e == f,
        },
{
    let mut out: Vec<DerivationEvent> = Vec::new();
    let mut seen: StringHashMap<Vec<u8>> = StringHashMap::new();
    let ghost start = EventScan {
        out: Seq::empty(),
        seen: Map::empty(),
        total: *decoded as int,
    };
    assert(derivation::models(out@) =~= start.out);
    match ns {
        None => {},
        Some(n) => {
            if n.kind == EntryKind::Tree {
                let ghost mut cur = start;
                let mut k: usize = 0;
                while k < n.shards.len()
                    invariant
                        k <= n.shards.len(),
                        event_state(out, seen, *decoded, cur),
                        read_events(opt_namespace(*ns), *old(decoded) as int, max as int) == event_shards(
                            n@.shards,
                            k as int,
                            cur,
                            max as int,
                        ),
                    decreases n.shards.len() - k,
                {
                    let shard = &n.shards[k];
        assert(n@.shards[k as int] == shard@);
                    if !any_hex(shard.name.as_str(), 2) || shard.kind != EntryKind::Tree {
                        return Err(SyncError::InvalidEventShard);
                    }
                    match read_event_shard(
                        shard,
                        &mut out,
                        &mut seen,
                        decoded,
                        max,
                        Ghost(cur),
                    ) {
                        Ok(_) => {},
                        Err(f) => {
                            return Err(f);
                        },
                    }
                    proof {
                        cur = event_leaves(
                            n@.shards[k as int].name,
                            n@.shards[k as int].leaves,
                            0,
                            cur,
                            max as int,
                        )->Ok_0;
                    }
                    k += 1;
                }
            }
        },
    }
    Ok(out)
}

/// The contents of a list of ranges.
pub open spec fn range_models(s: Seq<RangeEvidence>) -> Seq<RangeModel> {
    s.map_values(|x: RangeEvidence| x@)
}

/// What reading ranges has found so far.
#[verifier::ext_equal]
pub struct RangeScan {
    pub out: Seq<RangeModel>,
    pub seen: Map<Seq<char>, Seq<u8>>,
    pub total: int,
}

/// Reading one range blob.
pub open spec fn range_leaf(shard: Seq<char>, leaf: LeafModel<RangeModel>, st: RangeScan, max: int) -> Result<
    RangeScan,
    SyncError,
> {
    if st.out.len() >= MAX_SYNC_RANGES {
        Err(SyncError::TooManyRanges)
    } else {
        match json_stem(leaf.name) {
            None => Err(SyncError::InvalidRangeFilename),
            Some(id) => if !digest::is_lower_hex(id, 64) {
                Err(SyncError::InvalidRangeFilename)
            } else if id.take(2) != shard || leaf.kind != EntryKind::Blob {
                Err(SyncError::RangePathMismatch)
            } else if leaf.body.len() > MAX_SYNC_BLOB_BYTES {
                Err(SyncError::RangeTooLarge)
            } else {
                match charged(st.total, leaf.body.len() as int, max) {
                    Err(f) => Err(f),
                    Ok(total) => match leaf.record {
                        None => Err(SyncError::Malformed),
                        Some(record) => if record.range_id != id || !models::valid_range(record) {
                            Err(SyncError::RangeBodyMismatch)
                        } else if st.seen.contains_key(id) {
                            if st.seen[id] != leaf.body {
                                Err(SyncError::ConflictingRange)
                            } else {
                                Ok(RangeScan { out: st.out, seen: st.seen, total })
                            }
                        } else {
                            Ok(
                                RangeScan {
                                    out: st.out.push(record),
                                    seen: st.seen.insert(id, leaf.body),
                                    total,
                                },
                            )
                        },
                    },
                }
            },
        }
    }
}

/// Reading the range blobs of a shard from position `i` on.
pub open spec fn range_leaves(
    shard: Seq<char>,
    leaves: Seq<LeafModel<RangeModel>>,
    i: int,
    st: RangeScan,
    max: int,
) -> Result<RangeScan, SyncError>
    decreases leaves.len() - i,
{
    if i < 0 || i >= leaves.len() {
        Ok(st)
    } else {
        match range_leaf(shard, leaves[i], st, max) {
            Err(f) => Err(f),
            Ok(next) => range_leaves(shard, leaves, i + 1, next, max),
        }
    }
}

/// Reading the range shards from position `k` on.
pub open spec fn range_shards(shards: Seq<ShardModel<RangeModel>>, k: int, st: RangeScan, max: int) -> Result<
    RangeScan,
    SyncError,
>
    decreases shards.len() - k,
{
    if k < 0 || k >= shards.len() {
        Ok(st)
    } else if !digest::is_lower_hex(shards[k].name, 2) || shards[k].kind != EntryKind::Tree {
        Err(SyncError::InvalidRangeShard)
    } else {
        match range_leaves(shards[k].name, shards[k].leaves, 0, st, max) {
            Err(f) => Err(f),
            Ok(next) => range_shards(shards, k + 1, next, max),
        }
    }
}

/// Reading all ranges of a tree, starting with `total` bytes already read.
pub open spec fn read_ranges(ns: Option<NamespaceModel<RangeModel>>, total: int, max: int) -> Result<
    RangeScan,
    SyncError,
> {
    let start = RangeScan { out: Seq::empty(), seen: Map::empty(), total };
    match ns {
        None => Ok(start),
        Some(n) => if n.kind != EntryKind::Tree {
            Ok(start)
        } else {
            range_shards(n.shards, 0, start, max)
        },
    }
}

/// The state of a running read.
spec fn range_state(
    out: Vec<RangeEvidence>,
    seen: StringHashMap<Vec<u8>>,
    total: usize,
    st: RangeScan,
) -> bool {
    &&& range_models(out@) == st.out
    &&& total == st.total
    &&& forall|x: Seq<char>| #[trigger] st.seen.contains_key(x) <==> seen@.contains_key(x)
    &&& forall|x: Seq<char>| #[trigger] st.seen.contains_key(x) ==> st.seen[x] == seen@[x]@
}

fn read_range_shard(
    shard: &Shard<RangeEvidence>,
    out: &mut Vec<RangeEvidence>,
    seen: &mut StringHashMap<Vec<u8>>,
    decoded: &mut usize,
    max: usize,
    Ghost(st): Ghost<RangeScan>,
) -> (r: Result<(), SyncError>)
    requires
        shard.name@.len() == 2,
        range_state(*old(out), *old(seen), *old(decoded), st),
    ensures
        match r {
            Ok(_) => {
                &&& range_leaves(shard.name@, shard@.leaves, 0, st, max as int) is Ok
                &&& range_state(
                    *final(out),
                    *final(seen),
                    *final(decoded),
                    range_leaves(shard.name@, shard@.leaves, 0, st, max as int)->Ok_0,
                )
            },
            Err(f) => range_leaves(shard.name@, shard@.leaves, 0, st, max as int) == Err::<
                RangeScan,
                SyncError,
            >(f),
        },
{
    let ghost mut cur = st;
    let mut i: usize = 0;
    while i < shard.leaves.len()
        invariant
            i <= shard.leaves.len(),
            shard.name@.len() == 2,
            range_state(*out, *seen, *decoded, cur),
            range_leaves(shard.name@, shard@.leaves, 0, st, max as int) == range_leaves(
                shard.name@,
                shard@.leaves,
                i as int,
                cur,
                max as int,
            ),
        decreases shard.leaves.len() - i,
    {
        let leaf = &shard.leaves[i];
            assert(shard@.leaves[i as int] == leaf@);
        assert(cur.out.len() == out@.len());
        if out.len() >= MAX_SYNC_RANGES {
            return Err(SyncError::TooManyRanges);
        }
        let id = match strip_json(leaf.name.as_str()) {
            Some(id) => id,
            None => {
                return Err(SyncError::InvalidRangeFilename);
            },
        };
        if !lower_hex(id.as_str(), 64) {
            return Err(SyncError::InvalidRangeFilename);
        }
        if !in_shard(id.as_str(), shard.name.as_str()) || leaf.kind != EntryKind::Blob {
            return Err(SyncError::RangePathMismatch);
        }
        if leaf.body.len() > MAX_SYNC_BLOB_BYTES {
            return Err(SyncError::RangeTooLarge);
        }
        match add_sync_bytes(decoded, leaf.body.len(), max) {
            Ok(_) => {},
            Err(f) => {
                return Err(f);
            },
        }
        let record = match &leaf.record {
            Some(record) => record,
            None => {
                return Err(SyncError::Malformed);
            },
        };
        if record.range_id != id || !record.verify_id() {
            return Err(SyncError::RangeBodyMismatch);
        }
        let ghost next = range_leaf(shard.name@, shard@.leaves[i as int], cur, max as int)->Ok_0;
        let known = match seen.get(id.as_str()) {
            Some(body) => {
                if !bytes_equal(body.as_slice(), leaf.body.as_slice()) {
                    assert(cur.seen.contains_key(id@));
                    return Err(SyncError::ConflictingRange);
                }
                true
            },
            None => false,
        };
        assert(known == cur.seen.contains_key(id@));
        if !known {
            let mut body: Vec<u8> = Vec::new();
            put_bytes(&mut body, leaf.body.as_slice());
            assert(body@ =~= leaf.body@);
            out.push(record.clone());
            seen.insert(id, body);
            assert(range_models(out@) =~= cur.out.push(record@));
        }
        proof {
            cur = next;
        }
        i += 1;
    }
    Ok(())
}

/// Reads the ranges of a tree under bounds.
pub fn collect_ranges(ns: &Option<Namespace<RangeEvidence>>, decoded: &mut usize, max: usize) -> (r: Result<
    Vec<RangeEvidence>,
    SyncError,
>)
    ensures
        match read_ranges(opt_namespace(*ns), *old(decoded) as int, max as int) {
            Ok(st) => r matches Ok(v) && range_models(v@) == st.out && *final(decoded) == st.total,
            Err(f) => r matches Err(e) && e == f,
        },
{
    let mut out: Vec<RangeEvidence> = Vec::new();
    let mut seen: StringHashMap<Vec<u8>> = StringHashMap::new();
    let ghost start = RangeScan {
        out: Seq::empty(),
        seen: Map::empty(),
        total: *decoded as int,
    };
    assert(range_models(out@) =~= start.out);
    match ns {
        None => {},
        Some(n) => {
            if n.kind == EntryKind::Tree {
                let ghost mut cur = start;
                let mut k: usize = 0;
                while k < n.shards.len()
                    invariant
                        k <= n.shards.len(),
                        range_state(out, seen, *decoded, cur),
                        read_ranges(opt_namespace(*ns), *old(decoded) as int, max as int) == range_shards(
                            n@.shards,
                            k as int,
                            cur,
                            max as int,
                        ),
                    decreases n.shards.len() - k,
                {
                    let shard = &n.shards[k];
        assert(n@.shards[k as int] == shard@);
                    if !lower_hex(shard.name.as_str(), 2) || shard.kind != EntryKind::Tree {
                        return Err(SyncError::InvalidRangeShard);
                    }
                    match read_range_shard(
                        shard,
                        &mut out,
                        &mut seen,
                        decoded,
                        max,
                        Ghost(cur),
                    ) {
                        Ok(_) => {},
                        Err(f) => {
                            return Err(f);
                        },
                    }
                    proof {
                        cur = range_leaves(
                            n@.shards[k as int].name,
                            n@.shards[k as int].leaves,
                            0,
                            cur,
                            max as int,
                        )->Ok_0;
                    }
                    k += 1;
                }
            }
        },
    }
    Ok(out)
}

/// Reading one tombstone blob behind `out`.
pub open spec fn tombstone_leaf(
    shard: Seq<char>,
    leaf: LeafModel<TombstoneModel>,
    out: Seq<TombstoneModel>,
    total: int,
    limits: SyncReadLimits,
) -> Result<(Seq<TombstoneModel>, int), SyncError> {
    if out.len() >= limits.max_tombstones {
        Err(SyncError::TooManyTombstones)
    } else if leaf.kind != EntryKind::Blob {
        Err(SyncError::InvalidTombstoneEntry)
    } else {
        match json_stem(leaf.name) {
            None => Err(SyncError::InvalidTombstoneFilename),
            Some(id) => if !(id.len() >= 2 && id.take(2) == shard) {
                Err(SyncError::TombstoneShardMismatch)
            } else if leaf.body.len() > limits.max_tombstone_bytes {
                Err(SyncError::TombstoneTooLarge)
            } else {
                match charged(total, leaf.body.len() as int, limits.max_total_bytes as int) {
                    Err(f) => Err(f),
                    Ok(next) => match leaf.record {
                        None => Err(SyncError::Malformed),
                        Some(t) => if !valid_tombstone(t) {
                            Err(SyncError::InvalidTombstone)
                        } else if t.interaction_id.text() != id {
                            Err(SyncError::TombstoneFilenameMismatch)
                        } else {
                            Ok((out.push(t), next))
                        },
                    },
                }
            },
        }
    }
}

/// Reading the tombstones of a shard from position `i` on.
pub open spec fn tombstone_leaves(
    shard: Seq<char>,
    leaves: Seq<LeafModel<TombstoneModel>>,
    i: int,
    out: Seq<TombstoneModel>,
    total: int,
    limits: SyncReadLimits,
) -> Result<(Seq<TombstoneModel>, int), SyncError>
    decreases leaves.len() - i,
{
    if i < 0 || i >= leaves.len() {
        Ok((out, total))
    } else {
        match tombstone_leaf(shard, leaves[i], out, total, limits) {
            Err(f) => Err(f),
            Ok((o, t)) => tombstone_leaves(shard, leaves, i + 1, o, t, limits),
        }
    }
}

/// Reading the tombstone shards from position `k` on.
pub open spec fn tombstone_shards(
    shards: Seq<ShardModel<TombstoneModel>>,
    k: int,
    out: Seq<TombstoneModel>,
    total: int,
    limits: SyncReadLimits,
) -> Result<(Seq<TombstoneModel>, int), SyncError>
    decreases shards.len() - k,
{
    if k < 0 || k >= shards.len() {
        Ok((out, total))
    } else if !digest::is_hex(shards[k].name, 2) || shards[k].kind != EntryKind::Tree {
        Err(SyncError::InvalidTombstoneShard)
    } else {
        match tombstone_leaves(shards[k].name, shards[k].leaves, 0, out, total, limits) {
            Err(f) => Err(f),
            Ok((o, t)) => tombstone_shards(shards, k + 1, o, t, limits),
        }
    }
}

/// Reading all tombstones of a tree.
pub open spec fn read_tombstones(
    ns: Option<NamespaceModel<TombstoneModel>>,
    limits: SyncReadLimits,
) -> Result<Seq<TombstoneModel>, SyncError> {
    match ns {
        None => Ok(Seq::empty()),
        Some(n) => if n.kind != EntryKind::Tree {
            Err(SyncError::TombstonesNotTree)
        } else {
            match tombstone_shards(n.shards, 0, Seq::empty(), 0, limits) {
                Err(f) => Err(f),
                Ok((out, _)) => distinct_tombstones(out, 0, Seq::empty()),
            }
        },
    }
}

/// Reads the tombstones of a tree under bounds.
pub fn collect_tombstones(ns: &Option<Namespace<Tombstone>>, limits: SyncReadLimits) -> (r: Result<
    Vec<Tombstone>,
    SyncError,
>)
    ensures
        match read_tombstones(opt_namespace(*ns), limits) {
            Ok(s) => r matches Ok(v) && models::tombstone_models(v@) == s,
            Err(f) => r matches Err(e) && e == f,
        },
{
    let n = match ns {
        None => {
            let out: Vec<Tombstone> = Vec::new();
            assert(models::tombstone_models(out@) =~= Seq::empty());
            return Ok(out);
        },
        Some(n) => n,
    };
    if n.kind != EntryKind::Tree {
        return Err(SyncError::TombstonesNotTree);
    }
    let mut out: Vec<Tombstone> = Vec::new();
    let mut total: usize = 0;
    let mut k: usize = 0;
    assert(models::tombstone_models(out@) =~= Seq::empty());
    while k < n.shards.len()
        invariant
            k <= n.shards.len(),
            n.kind == EntryKind::Tree,
            opt_namespace(*ns) == Some(n@),
            tombstone_shards(n@.shards, 0, Seq::empty(), 0, limits) == tombstone_shards(
                n@.shards,
                k as int,
                models::tombstone_models(out@),
                total as int,
                limits,
            ),
        decreases n.shards.len() - k,
    {
        let shard = &n.shards[k];
        assert(n@.shards[k as int] == shard@);
        if !any_hex(shard.name.as_str(), 2) || shard.kind != EntryKind::Tree {
            return Err(SyncError::InvalidTombstoneShard);
        }
        let ghost out0 = models::tombstone_models(out@);
        let ghost total0 = total as int;
        let mut i: usize = 0;
        while i < shard.leaves.len()
            invariant
                k < n.shards.len(),
                n.kind == EntryKind::Tree,
                opt_namespace(*ns) == Some(n@),
                shard@ == n@.shards[k as int],
                shard.name@.len() == 2,
                shard.kind == EntryKind::Tree,
                digest::is_hex(shard.name@, 2),
                i <= shard.leaves.len(),
                tombstone_shards(n@.shards, 0, Seq::empty(), 0, limits) == tombstone_shards(
                    n@.shards,
                    k as int,
                    out0,
                    total0,
                    limits,
                ),
                tombstone_leaves(shard.name@, shard@.leaves, 0, out0, total0, limits)
                    == tombstone_leaves(
                    shard.name@,
                    shard@.leaves,
                    i as int,
                    models::tombstone_models(out@),
                    total as int,
                    limits,
                ),
            decreases shard.leaves.len() - i,
        {
            let leaf = &shard.leaves[i];
            assert(shard@.leaves[i as int] == leaf@);
            let ghost held = models::tombstone_models(out@);
            assert(held.len() == out@.len());
            if out.len() >= limits.max_tombstones {
                return Err(SyncError::TooManyTombstones);
            }
            if leaf.kind != EntryKind::Blob {
                return Err(SyncError::InvalidTombstoneEntry);
            }
            let id = match strip_json(leaf.name.as_str()) {
                Some(id) => id,
                None => {
                    return Err(SyncError::InvalidTombstoneFilename);
                },
            };
            if !in_shard(id.as_str(), shard.name.as_str()) {
                return Err(SyncError::TombstoneShardMismatch);
            }
            if leaf.body.len() > limits.max_tombstone_bytes {
                return Err(SyncError::TombstoneTooLarge);
            }
            match add_sync_bytes(&mut total, leaf.body.len(), limits.max_total_bytes) {
                Ok(_) => {},
                Err(f) => {
                    return Err(f);
                },
            }
            let t = match &leaf.record {
                Some(t) => t,
                None => {
                    return Err(SyncError::Malformed);
                },
            };
            match validate_tombstone(t) {
                Ok(_) => {},
                Err(f) => {
                    return Err(f);
                },
            }
            if !text_equal(t.interaction_id.as_str().as_str(), id.as_str()) {
                return Err(SyncError::TombstoneFilenameMismatch);
            }
            out.push(t.clone());
            assert(models::tombstone_models(out@) =~= held.push(t@));
            i += 1;
        }
        k += 1;
    }
    validate_tombstone_records(&out)
}

/// Reading one link record behind `out`.
pub open spec fn link_leaf(
    interaction: Seq<char>,
    leaf: LeafModel<LinkRecordModel>,
    out: Seq<LinkRecordModel>,
    total: int,
    max: int,
) -> Result<(Seq<LinkRecordModel>, int), SyncError> {
    if out.len() >= MAX_SYNC_LINK_EVENTS {
        Err(SyncError::TooManyLinkEvents)
    } else {
        match json_stem(leaf.name) {
            None => Err(SyncError::InvalidLinksCommit),
            Some(commit) => if !derivation::is_commit_sha(commit) {
                Err(SyncError::InvalidLinksCommit)
            } else if leaf.kind != EntryKind::Blob {
                Err(SyncError::Malformed)
            } else if leaf.body.len() > MAX_SYNC_BLOB_BYTES {
                Err(SyncError::LinkTooLarge)
            } else {
                match charged(total, leaf.body.len() as int, max) {
                    Err(f) => Err(f),
                    Ok(next) => match leaf.record {
                        None => Err(SyncError::Malformed),
                        Some(record) => if record.interaction_id != interaction
                            || record.git_commit_hash != commit || !derivation::automatic_link_type(
                            record.link_type,
                        ) {
                            Err(SyncError::InconsistentLinkRecord)
                        } else if !derivation::valid_attribution(record.linked_by) {
                            Err(SyncError::InvalidLinkAttribution)
                        } else {
                            Ok((out.push(record), next))
                        },
                    },
                }
            },
        }
    }
}

/// Reading the link records of an interaction from position `i` on.
pub open spec fn link_leaves(
    interaction: Seq<char>,
    leaves: Seq<LeafModel<LinkRecordModel>>,
    i: int,
    out: Seq<LinkRecordModel>,
    total: int,
    max: int,
) -> Result<(Seq<LinkRecordModel>, int), SyncError>
    decreases leaves.len() - i,
{
    if i < 0 || i >= leaves.len() {
        Ok((out, total))
    } else {
        match link_leaf(interaction, leaves[i], out, total, max) {
            Err(f) => Err(f),
            Ok((o, t)) => link_leaves(interaction, leaves, i + 1, o, t, max),
        }
    }
}

/// Reading the link records of all interactions from position `k` on.
pub open spec fn link_shards(
    shards: Seq<ShardModel<LinkRecordModel>>,
    k: int,
    out: Seq<LinkRecordModel>,
    total: int,
    max: int,
) -> Result<(Seq<LinkRecordModel>, int), SyncError>
    decreases shards.len() - k,
{
    if k < 0 || k >= shards.len() {
        Ok((out, total))
    } else if models::parsed_uuid(shards[k].name) is None {
        Err(SyncError::InvalidLinksPath)
    } else if shards[k].kind != EntryKind::Tree {
        Err(SyncError::Malformed)
    } else {
        match link_leaves(shards[k].name, shards[k].leaves, 0, out, total, max) {
            Err(f) => Err(f),
            Ok((o, t)) => link_shards(shards, k + 1, o, t, max),
        }
    }
}

/// Reading all link records of a tree, starting with `total` bytes already read.
pub open spec fn read_links(ns: Option<NamespaceModel<LinkRecordModel>>, total: int, max: int) -> Result<
    (Seq<LinkRecordModel>, int),
    SyncError,
> {
    match ns {
        None => Ok((Seq::empty(), total)),
        Some(n) => if n.kind != EntryKind::Tree {
            Ok((Seq::empty(), total))
        } else {
            link_shards(n.shards, 0, Seq::empty(), total, max)
        },
    }
}

/// Reads the link records of a tree under bounds.
pub fn collect_link_records(
    ns: &Option<Namespace<SyncLinkRecord>>,
    decoded_bytes: &mut usize,
    max_total_bytes: usize,
) -> (r: Result<Vec<SyncLinkRecord>, SyncError>)
    ensures
        match read_links(opt_namespace(*ns), *old(decoded_bytes) as int, max_total_bytes as int) {
            Ok((s, t)) => r matches Ok(v) && link_record_models(v@) == s && *final(decoded_bytes)
                == t,
            Err(f) => r matches Err(e) && e == f,
        },
{
    let max = max_total_bytes;
    let mut out: Vec<SyncLinkRecord> = Vec::new();
    assert(link_record_models(out@) =~= Seq::empty());
    let n = match ns {
        None => {
            return Ok(out);
        },
        Some(n) => n,
    };
    if n.kind != EntryKind::Tree {
        return Ok(out);
    }
    let mut k: usize = 0;
    while k < n.shards.len()
        invariant
            k <= n.shards.len(),
            max == max_total_bytes,
            read_links(opt_namespace(*ns), *old(decoded_bytes) as int, max as int) == link_shards(
                n@.shards,
                k as int,
                link_record_models(out@),
                *decoded_bytes as int,
                max as int,
            ),
        decreases n.shards.len() - k,
    {
        let shard = &n.shards[k];
        assert(n@.shards[k as int] == shard@);
        match parse_uuid(shard.name.as_str()) {
            Ok(_) => {},
            Err(_) => {
                return Err(SyncError::InvalidLinksPath);
            },
        }
        if shard.kind != EntryKind::Tree {
            return Err(SyncError::Malformed);
        }
        let ghost out0 = link_record_models(out@);
        let ghost total0 = *decoded_bytes as int;
        let mut i: usize = 0;
        while i < shard.leaves.len()
            invariant
                k < n.shards.len(),
                max == max_total_bytes,
                shard@ == n@.shards[k as int],
                models::parsed_uuid(shard.name@) is Some,
                shard.kind == EntryKind::Tree,
                i <= shard.leaves.len(),
                read_links(opt_namespace(*ns), *old(decoded_bytes) as int, max as int) == link_shards(
                    n@.shards,
                    k as int,
                    out0,
                    total0,
                    max as int,
                ),
                link_leaves(shard.name@, shard@.leaves, 0, out0, total0, max as int) == link_leaves(
                    shard.name@,
                    shard@.leaves,
                    i as int,
                    link_record_models(out@),
                    *decoded_bytes as int,
                    max as int,
                ),
            decreases shard.leaves.len() - i,
        {
            let leaf = &shard.leaves[i];
            assert(shard@.leaves[i as int] == leaf@);
            let ghost held = link_record_models(out@);
            assert(held.len() == out@.len());
            if out.len() >= MAX_SYNC_LINK_EVENTS {
                return Err(SyncError::TooManyLinkEvents);
            }
            let commit = match strip_json(leaf.name.as_str()) {
                Some(commit) => commit,
                None => {
                    return Err(SyncError::InvalidLinksCommit);
                },
            };
            if !is_safe_commit_sha(commit.as_str()) {
                return Err(SyncError::InvalidLinksCommit);
            }
            if leaf.kind != EntryKind::Blob {
                return Err(SyncError::Malformed);
            }
            if leaf.body.len() > MAX_SYNC_BLOB_BYTES {
                return Err(SyncError::LinkTooLarge);
            }
            match add_sync_bytes(decoded_bytes, leaf.body.len(), max) {
                Ok(_) => {},
                Err(f) => {
                    return Err(f);
                },
            }
            let record = match &leaf.record {
                Some(record) => record,
                None => {
                    return Err(SyncError::Malformed);
                },
            };
            if record.interaction_id != shard.name || record.git_commit_hash != commit
                || !is_automatic_link_type(record.link_type.as_str()) {
                return Err(SyncError::InconsistentLinkRecord);
            }
            if !attribution_ok(&record.linked_by) {
                return Err(SyncError::InvalidLinkAttribution);
            }
            out.push(record.clone());
            assert(link_record_models(out@) =~= held.push(record@));
            i += 1;
        }
        k += 1;
    }
    Ok(out)
}

/// The place of an interaction in the index by commit.
pub open spec fn index_path(commit: Seq<char>, id: Seq<char>) -> Seq<char> {
    commit + "/"@ + id
}

/// The place of an interaction in the index by commit.
pub fn index_entry(commit: &str, id: &str) -> (r: String)
    ensures
        r@ == index_path(commit@, id@),
{
    glue3(commit, "/", id)
}

/// A place in the index belongs to one commit and one interaction: two places
/// of identifiers of the same length agree only where both names agree.
pub proof fn law_index_place_is_unambiguous(c1: Seq<char>, i1: Seq<char>, c2: Seq<char>, i2: Seq<char>)
    requires
        i1.len() == i2.len(),
        index_path(c1, i1) == index_path(c2, i2),
    ensures
        c1 == c2,
        i1 == i2,
{
    reveal_strlit("/");
    let a = index_path(c1, i1);
    let b = index_path(c2, i2);
    assert(a.len() == c1.len() + 1 + i1.len());
    assert(b.len() == c2.len() + 1 + i2.len());
    assert(c1 =~= a.take(c1.len() as int));
    assert(c2 =~= b.take(c2.len() as int));
    assert(i1 =~= a.skip(c1.len() as int + 1));
    assert(i2 =~= b.skip(c2.len() as int + 1));
}

/// Reading one pointer of the index.
pub open spec fn pointer_leaf(commit: Seq<char>, leaf: LeafModel<()>, out: Set<Seq<char>>) -> Result<
    Set<Seq<char>>,
    SyncError,
> {
    let path = index_path(commit, leaf.name);
    if models::parsed_uuid(leaf.name) is None {
        Err(SyncError::InvalidByCommitName)
    } else if !derivation::is_canonical_id(leaf.name) || leaf.kind != EntryKind::Blob {
        Err(SyncError::InvalidByCommitPointer)
    } else if leaf.body.len() > 0 {
        Err(SyncError::ByCommitBody)
    } else if out.contains(path) {
        Err(SyncError::DuplicatePointer)
    } else if out.insert(path).len() > MAX_BY_COMMIT_POINTERS {
        Err(SyncError::TooManyPointers)
    } else {
        Ok(out.insert(path))
    }
}

/// Reading the pointers of a commit from position `i` on.
pub open spec fn pointer_leaves(
    commit: Seq<char>,
    leaves: Seq<LeafModel<()>>,
    i: int,
    out: Set<Seq<char>>,
) -> Result<Set<Seq<char>>, SyncError>
    decreases leaves.len() - i,
{
    if i < 0 || i >= leaves.len() {
        Ok(out)
    } else {
        match pointer_leaf(commit, leaves[i], out) {
            Err(f) => Err(f),
            Ok(next) => pointer_leaves(commit, leaves, i + 1, next),
        }
    }
}

/// Reading the commits of the index from position `k` on.
pub open spec fn pointer_shards(shards: Seq<ShardModel<()>>, k: int, out: Set<Seq<char>>) -> Result<
    Set<Seq<char>>,
    SyncError,
>
    decreases shards.len() - k,
{
    if k < 0 || k >= shards.len() {
        Ok(out)
    } else if shards[k].kind != EntryKind::Tree || !derivation::is_commit_sha(shards[k].name) {
        Err(SyncError::InvalidByCommitCommit)
    } else {
        match pointer_leaves(shards[k].name, shards[k].leaves, 0, out) {
            Err(f) => Err(f),
            Ok(next) => pointer_shards(shards, k + 1, next),
        }
    }
}

/// Reading the index by commit.
pub open spec fn read_index(ns: Option<NamespaceModel<()>>) -> Result<Set<Seq<char>>, SyncError> {
    match ns {
        None => Ok(Set::empty()),
        Some(n) => if n.kind != EntryKind::Tree {
            Err(SyncError::ByCommitNotTree)
        } else {
            pointer_shards(n.shards, 0, Set::empty())
        },
    }
}

/// Reads the index by commit.
pub fn validate_by_commit_structure(ns: &Option<Namespace<()>>) -> (r: Result<TextSet, SyncError>)
    ensures
        match read_index(opt_namespace(*ns)) {
            Ok(s) => r matches Ok(v) && v.wf() && v@ == s,
            Err(f) => r matches Err(e) && e == f,
        },
{
    let mut out = TextSet::new();
    let n = match ns {
        None => {
            return Ok(out);
        },
        Some(n) => n,
    };
    if n.kind != EntryKind::Tree {
        return Err(SyncError::ByCommitNotTree);
    }
    let mut k: usize = 0;
    while k < n.shards.len()
        invariant
            k <= n.shards.len(),
            out.wf(),
            read_index(opt_namespace(*ns)) == pointer_shards(n@.shards, k as int, out@),
        decreases n.shards.len() - k,
    {
        let shard = &n.shards[k];
        assert(n@.shards[k as int] == shard@);
        if shard.kind != EntryKind::Tree || !is_safe_commit_sha(shard.name.as_str()) {
            return Err(SyncError::InvalidByCommitCommit);
        }
        let ghost out0 = out@;
        let mut i: usize = 0;
        while i < shard.leaves.len()
            invariant
                k < n.shards.len(),
                shard@ == n@.shards[k as int],
                derivation::is_commit_sha(shard.name@),
                shard.kind == EntryKind::Tree,
                i <= shard.leaves.len(),
                out.wf(),
                read_index(opt_namespace(*ns)) == pointer_shards(n@.shards, k as int, out0),
                pointer_leaves(shard.name@, shard@.leaves, 0, out0) == pointer_leaves(
                    shard.name@,
                    shard@.leaves,
                    i as int,
                    out@,
                ),
            decreases shard.leaves.len() - i,
        {
            let leaf = &shard.leaves[i];
            assert(shard@.leaves[i as int] == leaf@);
            match parse_uuid(leaf.name.as_str()) {
                Ok(_) => {},
                Err(_) => {
                    return Err(SyncError::InvalidByCommitName);
                },
            }
            if !canonical_id_text(leaf.name.as_str()) || leaf.kind != EntryKind::Blob {
                return Err(SyncError::InvalidByCommitPointer);
            }
            if leaf.body.len() > 0 {
                return Err(SyncError::ByCommitBody);
            }
            let path = index_entry(shard.name.as_str(), leaf.name.as_str());
            if !out.insert(path) {
                return Err(SyncError::DuplicatePointer);
            }
            if out.len() > MAX_BY_COMMIT_POINTERS {
                return Err(SyncError::TooManyPointers);
            }
            i += 1;
        }
        k += 1;
    }
    Ok(out)
}

/// A blob that may hold an interaction, and the node it decodes to, if it does.
pub struct NodeBlob {
    pub body: Vec<u8>,
    pub node: Option<SyncNode>,
}

/// What stands under a name of the tree.
pub enum TreeObject {
    Blob(NodeBlob),
    Tree(Vec<TreeEntry>),
    Other,
}

/// A name of the tree, where it is UTF-8, and what stands under it.
pub struct TreeEntry {
    pub name: Option<String>,
    pub object: TreeObject,
}

/// The contents of [`NodeBlob`].
#[verifier::ext_equal]
pub struct BlobModel {
    pub body: Seq<u8>,
    pub node: Option<NodeModel>,
}

impl View for NodeBlob {
    type V = BlobModel;

    open spec fn view(&self) -> BlobModel {
        BlobModel {
            body: self.body@,
            node: match self.node {
                Some(n) => Some(n@),
                None => None,
            },
        }
    }
}

/// The contents of [`TreeObject`].
pub enum ObjectModel {
    Blob(BlobModel),
    Tree(Seq<EntryModel>),
    Other,
}

/// The contents of [`TreeEntry`].
pub struct EntryModel {
    pub name: Option<Seq<char>>,
    pub object: ObjectModel,
}

/// The contents of an entry and everything below it.
pub open spec fn entry_model(e: TreeEntry) -> EntryModel
    decreases e,
{
    EntryModel {
        name: models::opt_text(e.name),
        object: match e.object {
            TreeObject::Blob(b) => ObjectModel::Blob(b@),
            TreeObject::Tree(sub) => ObjectModel::Tree(
                Seq::new(
                    sub@.len(),
                    |i: int|
                        if 0 <= i < sub@.len() {
                            entry_model(sub@[i])
                        } else {
                            arbitrary()
                        },
                ),
            ),
            TreeObject::Other => ObjectModel::Other,
        },
    }
}

/// The contents of entries.
pub open spec fn entry_models(s: Seq<TreeEntry>) -> Seq<EntryModel> {
    Seq::new(s.len(), |i: int| entry_model(s[i]))
}

/// A name that is never searched for interactions.
pub open spec fn reserved_name(name: Seq<char>) -> bool {
    name == "by-commit"@ || name == "links"@ || name == "tombstones"@ || name == "events"@ || name
        == "ranges"@
}

/// Whether a name is never searched for interactions.
pub fn is_reserved_name(name: &str) -> (r: bool)
    ensures
        r == reserved_name(name@),
{
    text_equal(name, "by-commit") || text_equal(name, "links") || text_equal(name, "tombstones")
        || text_equal(name, "events") || text_equal(name, "ranges")
}

/// The interactions named by the entries from position `i` on, at most `depth`
/// levels down, behind those already found.
pub open spec fn node_blobs(
    entries: Seq<EntryModel>,
    depth: nat,
    i: int,
    found: Seq<(Seq<char>, BlobModel)>,
) -> Result<Seq<(Seq<char>, BlobModel)>, SyncError>
    decreases depth, entries.len() - i,
{
    if i < 0 || i >= entries.len() {
        Ok(found)
    } else {
        match entries[i].name {
            None => Err(SyncError::NonUtf8Path),
            Some(name) => match entries[i].object {
                ObjectModel::Blob(blob) => match json_stem(name) {
                    Some(id) => node_blobs(entries, depth, i + 1, found.push((id, blob))),
                    None => node_blobs(entries, depth, i + 1, found),
                },
                ObjectModel::Tree(sub) => if depth > 0 && !reserved_name(name) {
                    match node_blobs(sub, (depth - 1) as nat, 0, found) {
                        Err(f) => Err(f),
                        Ok(next) => node_blobs(entries, depth, i + 1, next),
                    }
                } else {
                    node_blobs(entries, depth, i + 1, found)
                },
                ObjectModel::Other => node_blobs(entries, depth, i + 1, found),
            },
        }
    }
}

/// An interaction found in the tree.
pub struct NodeRef<'a> {
    pub id: String,
    pub blob: &'a NodeBlob,
}

/// The interactions found.
pub open spec fn node_refs(s: Seq<NodeRef>) -> Seq<(Seq<char>, BlobModel)> {
    s.map_values(|r: NodeRef| (r.id@, r.blob@))
}

/// Finds every `<id>.json` blob at most `depth` levels down. This reads both
/// the flat layout at the root and the sharded one below `nodes/`.
pub fn collect_interaction_blobs<'a>(
    entries: &'a Vec<TreeEntry>,
    depth: usize,
    out: &mut Vec<NodeRef<'a>>,
) -> (r: Result<(), SyncError>)
    ensures
        match node_blobs(entry_models(entries@), depth as nat, 0, node_refs(old(out)@)) {
            Ok(s) => r is Ok && node_refs(final(out)@) == s,
            Err(f) => r matches Err(e) && e == f,
        },
    decreases depth,
{
    let ghost start = node_refs(out@);
    let mut i: usize = 0;
    while i < entries.len()
        invariant
            i <= entries.len(),
            start == node_refs(old(out)@),
            node_blobs(entry_models(entries@), depth as nat, 0, start) == node_blobs(
                entry_models(entries@),
                depth as nat,
                i as int,
                node_refs(out@),
            ),
        decreases entries.len() - i,
    {
        let ghost held = node_refs(out@);
        let entry = &entries[i];
        assert(entry_models(entries@)[i as int] == entry_model(*entry));
        let name = match &entry.name {
            Some(name) => name,
            None => {
                return Err(SyncError::NonUtf8Path);
            },
        };
        match &entry.object {
            TreeObject::Blob(blob) => {
                match strip_json(name.as_str()) {
                    Some(id) => {
                        let ghost x = (id@, blob@);
                        out.push(NodeRef { id, blob });
                        assert(node_refs(out@) =~= held.push(x));
                    },
                    None => {},
                }
            },
            TreeObject::Tree(sub) => {
                assert(entry_model(*entry).object->Tree_0 =~= entry_models(sub@));
                if depth > 0 && !is_reserved_name(name.as_str()) {
                    match collect_interaction_blobs(sub, depth - 1, out) {
                        Ok(_) => {},
                        Err(f) => {
                            return Err(f);
                        },
                    }
                }
            },
            TreeObject::Other => {},
        }
        i += 1;
    }
    Ok(())
}

} // verus!
