//! Accepting a received tree: which of its contents are believed, and the
//! order in which they reach the store.

use crate::derivation;
use crate::derivation::{retain_event_closure, validate_closed_derivation_graph};
use crate::digest::put_bytes;
use crate::fault::SyncError;
use crate::graph;
use crate::graph::arrange;
use crate::models;
use crate::models::{
    ArtifactLink, DerivationEvent, DerivationRelation, EventModel, InteractionId,
    InteractionModel, LinkModel, RangeEvidence, RangeModel, Tombstone, TombstoneModel,
};
use crate::sync;
use crate::sync::{validate_records_against_store, validate_remote_node};
use crate::text;
use crate::text::{chars_of, glue3, parse_number, string_from_bytes, text_equal, text_of, trim};
use crate::textset::TextSet;
use crate::tree;
use crate::tree::{
    BlobModel, EntryKind, EntryModel, LinkRecordModel, MAX_SYNC_BLOB_BYTES,
    MAX_SYNC_CONTEXT_ITEMS, MAX_SYNC_EMBEDDED_LINKS, MAX_SYNC_LINKS_PER_NODE, MAX_SYNC_NODES,
    MAX_SYNC_TOOL_EXECUTIONS, MAX_SYNC_TOTAL_BYTES, Namespace, NamespaceModel, NodeBlob,
    NodeModel, NodeRef, SyncLinkRecord, SyncNode, SyncReadLimits, TreeEntry, add_sync_bytes,
    collect_derivation_events, collect_interaction_blobs, collect_link_records, collect_ranges,
    collect_tombstones, index_entry, validate_by_commit_structure,
};
use vstd::hash_set::StringHashSet;
use vstd::prelude::*;
use vstd::string::*;
use vstd::utf8::*;

verus! {

/// Everything a tree holds, as plain values.
pub struct Snapshot {
    /// The content of the `FORMAT` blob.
    pub format: Option<Vec<u8>>,
    /// All entries of the root, searched for interactions.
    pub entries: Vec<TreeEntry>,
    pub tombstones: Option<Namespace<Tombstone>>,
    pub links: Option<Namespace<SyncLinkRecord>>,
    pub events: Option<Namespace<DerivationEvent>>,
    pub ranges: Option<Namespace<RangeEvidence>>,
    pub by_commit: Option<Namespace<()>>,
}

/// The contents of [`Snapshot`].
#[verifier::ext_equal]
pub struct TreeModel {
    pub format: Option<Seq<u8>>,
    pub entries: Seq<EntryModel>,
    pub tombstones: Option<NamespaceModel<TombstoneModel>>,
    pub links: Option<NamespaceModel<LinkRecordModel>>,
    pub events: Option<NamespaceModel<EventModel>>,
    pub ranges: Option<NamespaceModel<RangeModel>>,
    pub by_commit: Option<NamespaceModel<()>>,
}

impl View for Snapshot {
    type V = TreeModel;

    open spec fn view(&self) -> TreeModel {
        TreeModel {
            format: match self.format {
                Some(b) => Some(b@),
                None => None,
            },
            entries: tree::entry_models(self.entries@),
            tombstones: tree::opt_namespace(self.tombstones),
            links: tree::opt_namespace(self.links),
            events: tree::opt_namespace(self.events),
            ranges: tree::opt_namespace(self.ranges),
            by_commit: tree::opt_namespace(self.by_commit),
        }
    }
}

/// The number that a format marker holds.
pub open spec fn format_number(body: Seq<u8>) -> Result<u64, SyncError> {
    if !valid_utf8(body) {
        Err(SyncError::FormatNotUtf8)
    } else {
        match text::number_of(text::trimmed(decode_utf8(body))) {
            None => Err(SyncError::FormatNotNumeric),
            Some(n) => Ok(n),
        }
    }
}

/// Reads a format marker.
pub fn read_format(body: &Vec<u8>) -> (r: Result<u64, SyncError>)
    ensures
        r == format_number(body@),
{
    let mut bytes: Vec<u8> = Vec::new();
    put_bytes(&mut bytes, body.as_slice());
    assert(bytes@ =~= body@);
    match string_from_bytes(bytes) {
        None => Err(SyncError::FormatNotUtf8),
        Some(text) => match parse_number(trim(text.as_str()).as_str()) {
            None => Err(SyncError::FormatNotNumeric),
            Some(n) => Ok(n),
        },
    }
}

/// An ASCII white space byte.
pub open spec fn is_ascii_white(b: u8) -> bool {
    b == 32 || b == 9 || b == 10 || b == 12 || b == 13
}

/// The bytes between `from` and `to` without white space at either end are
/// the digit five.
pub open spec fn marks_five(body: Seq<u8>) -> bool {
    exists|k: int|
        0 <= k < body.len() && #[trigger] body[k] == 53 && forall|i: int|
            0 <= i < body.len() && i != k ==> is_ascii_white(#[trigger] body[i])
}

/// Whether a format marker is the digit five and white space around it.
pub fn is_five(body: &Vec<u8>) -> (r: bool)
    ensures
        r == marks_five(body@),
{
    let mut found = false;
    let mut at: usize = 0;
    let mut i: usize = 0;
    while i < body.len()
        invariant
            i <= body.len(),
            found ==> at < i && body@[at as int] == 53,
            !found ==> forall|k: int| 0 <= k < i ==> is_ascii_white(#[trigger] body@[k]),
            found ==> forall|k: int| 0 <= k < i && k != at ==> is_ascii_white(#[trigger] body@[k]),
        decreases body.len() - i,
    {
        let b = body[i];
        if b == 53 && !found {
            found = true;
            at = i;
        } else if !(b == 32 || b == 9 || b == 10 || b == 12 || b == 13) {
            proof {
                if marks_five(body@) {
                    let k = choose|k: int|
                        0 <= k < body@.len() && #[trigger] body@[k] == 53 && forall|i: int|
                            0 <= i < body@.len() && i != k ==> is_ascii_white(#[trigger] body@[i]);
                    if k != i {
                        assert(is_ascii_white(body@[i as int]));
                    } else {
                        assert(is_ascii_white(body@[at as int]));
                    }
                }
            }
            return false;
        }
        i += 1;
    }
    proof {
        if found {
            assert(body@[at as int] == 53);
        }
    }
    found
}

/// The layout is the current one.
pub open spec fn is_current(snap: TreeModel) -> bool {
    snap.format matches Some(body) && marks_five(body)
}

/// What is wrong with the namespaces that belong to the current layout.
pub open spec fn reserved_fault(snap: TreeModel) -> Option<SyncError> {
    let current = is_current(snap);
    if current && (snap.events is None || snap.ranges is None) {
        Some(SyncError::NamespaceMissing)
    } else if snap.ranges matches Some(n) && (!current || n.kind != EntryKind::Tree) {
        Some(SyncError::InvalidRangesNamespace)
    } else if snap.ranges is Some && tree::read_ranges(snap.ranges, 0, MAX_SYNC_TOTAL_BYTES as int) is Err {
        Some(tree::read_ranges(snap.ranges, 0, MAX_SYNC_TOTAL_BYTES as int)->Err_0)
    } else if snap.events matches Some(n) && (!current || n.kind != EntryKind::Tree) {
        Some(SyncError::InvalidEventsNamespace)
    } else if snap.events is Some && tree::read_events(snap.events, 0, MAX_SYNC_TOTAL_BYTES as int) is Err {
        Some(tree::read_events(snap.events, 0, MAX_SYNC_TOTAL_BYTES as int)->Err_0)
    } else {
        None
    }
}

/// Checks the namespaces that belong to the current layout. Outbound projection
/// never keeps an invalid event merely because it was there before.
pub fn validate_v5_reserved_namespaces(snap: &Snapshot) -> (r: Result<(), SyncError>)
    ensures
        match reserved_fault(snap@) {
            None => r is Ok,
            Some(f) => r matches Err(e) && e == f,
        },
{
    let current = match &snap.format {
        Some(body) => is_five(body),
        None => false,
    };
    if current && (snap.events.is_none() || snap.ranges.is_none()) {
        return Err(SyncError::NamespaceMissing);
    }
    match &snap.ranges {
        Some(n) => {
            if !current || n.kind != EntryKind::Tree {
                return Err(SyncError::InvalidRangesNamespace);
            }
            let mut bytes: usize = 0;
            match collect_ranges(&snap.ranges, &mut bytes, MAX_SYNC_TOTAL_BYTES) {
                Ok(_) => {},
                Err(f) => {
                    return Err(f);
                },
            }
        },
        None => {},
    }
    match &snap.events {
        Some(n) => {
            if !current || n.kind != EntryKind::Tree {
                return Err(SyncError::InvalidEventsNamespace);
            }
            let mut bytes: usize = 0;
            match collect_derivation_events(&snap.events, &mut bytes, MAX_SYNC_TOTAL_BYTES) {
                Ok(_) => {},
                Err(f) => {
                    return Err(f);
                },
            }
        },
        None => {},
    }
    Ok(())
}

/// What is wrong with a namespace of the current layout in a tree of this version.
pub open spec fn namespace_fault(present: bool, is_tree: bool, version: u64) -> Option<SyncError> {
    if present {
        if version < 5 {
            Some(SyncError::NamespaceInLegacyFormat)
        } else if !is_tree {
            Some(SyncError::NamespaceNotTree)
        } else {
            None
        }
    } else if version == 5 {
        Some(SyncError::NamespaceMissing)
    } else {
        None
    }
}

fn check_namespace(present: bool, is_tree: bool, version: u64) -> (r: Result<(), SyncError>)
    ensures
        match namespace_fault(present, is_tree, version) {
            None => r is Ok,
            Some(f) => r matches Err(e) && e == f,
        },
{
    if present {
        if version < 5 {
            Err(SyncError::NamespaceInLegacyFormat)
        } else if !is_tree {
            Err(SyncError::NamespaceNotTree)
        } else {
            Ok(())
        }
    } else if version == 5 {
        Err(SyncError::NamespaceMissing)
    } else {
        Ok(())
    }
}

/// The version of a received tree: the marker's number, which has to be a known
/// one, or one where there is no marker.
pub open spec fn received_version(snap: TreeModel) -> Result<u64, SyncError> {
    let marker = match snap.format {
        None => Ok(1u64),
        Some(body) => format_number(body),
    };
    match marker {
        Err(f) => Err(f),
        Ok(version) => if snap.format is Some && !(1 <= version <= 5) {
            Err(SyncError::UnsupportedFormat)
        } else {
            match namespace_fault(
                snap.events is Some,
                snap.events matches Some(n) && n.kind == EntryKind::Tree,
                version,
            ) {
                Some(f) => Err(f),
                None => match namespace_fault(
                    snap.ranges is Some,
                    snap.ranges matches Some(n) && n.kind == EntryKind::Tree,
                    version,
                ) {
                    Some(f) => Err(f),
                    None => Ok(version),
                },
            }
        },
    }
}

fn read_version(snap: &Snapshot) -> (r: Result<u64, SyncError>)
    ensures
        r == received_version(snap@),
{
    let version: u64 = match &snap.format {
        None => 1,
        Some(body) => match read_format(body) {
            Err(f) => {
                return Err(f);
            },
            Ok(n) => n,
        },
    };
    if snap.format.is_some() && !(1 <= version && version <= 5) {
        return Err(SyncError::UnsupportedFormat);
    }
    let events_tree = match &snap.events {
        Some(n) => n.kind == EntryKind::Tree,
        None => false,
    };
    let ranges_tree = match &snap.ranges {
        Some(n) => n.kind == EntryKind::Tree,
        None => false,
    };
    match check_namespace(snap.events.is_some(), events_tree, version) {
        Ok(_) => {},
        Err(f) => {
            return Err(f);
        },
    }
    match check_namespace(snap.ranges.is_some(), ranges_tree, version) {
        Ok(_) => {},
        Err(f) => {
            return Err(f);
        },
    }
    Ok(version)
}

/// The structure of a received tree.
pub struct ReceivedModel {
    pub version: u64,
    pub index: Set<Seq<char>>,
    pub tombstones: Seq<TombstoneModel>,
    pub refs: Seq<(Seq<char>, BlobModel)>,
}

/// Reading the structure of a received tree. Tombstones are read before any
/// node or link, so that nothing they suppress can come back.
pub open spec fn received(snap: TreeModel, limits: SyncReadLimits) -> Result<ReceivedModel, SyncError> {
    match received_version(snap) {
        Err(f) => Err(f),
        Ok(version) => match reserved_fault(snap) {
            Some(f) => Err(f),
            None => match tree::read_index(snap.by_commit) {
                Err(f) => Err(f),
                Ok(index) => match tree::read_tombstones(snap.tombstones, limits) {
                    Err(f) => Err(f),
                    Ok(tombstones) => match tree::node_blobs(snap.entries, 2, 0, Seq::empty()) {
                        Err(f) => Err(f),
                        Ok(refs) => if refs.len() > MAX_SYNC_NODES {
                            Err(SyncError::TooManyNodes)
                        } else {
                            Ok(ReceivedModel { version, index, tombstones, refs })
                        },
                    },
                },
            },
        },
    }
}

/// The structure of a received tree.
pub struct ReceivedTree<'a> {
    pub version: u64,
    pub index: TextSet,
    pub tombstones: Vec<Tombstone>,
    pub refs: Vec<NodeRef<'a>>,
}

impl<'a> ReceivedTree<'a> {
    pub open spec fn stands_for(self, m: ReceivedModel) -> bool {
        &&& self.version == m.version
        &&& self.index.wf()
        &&& self.index@ == m.index
        &&& models::tombstone_models(self.tombstones@) == m.tombstones
        &&& tree::node_refs(self.refs@) == m.refs
    }
}

/// Reads the structure of a received tree.
pub fn receive<'a>(snap: &'a Snapshot, limits: SyncReadLimits) -> (r: Result<
    ReceivedTree<'a>,
    SyncError,
>)
    ensures
        match received(snap@, limits) {
            Ok(m) => r matches Ok(t) && t.stands_for(m),
            Err(f) => r matches Err(e) && e == f,
        },
{
    let version = match read_version(snap) {
        Ok(v) => v,
        Err(f) => {
            return Err(f);
        },
    };
    match validate_v5_reserved_namespaces(snap) {
        Ok(_) => {},
        Err(f) => {
            return Err(f);
        },
    }
    let index = match validate_by_commit_structure(&snap.by_commit) {
        Ok(v) => v,
        Err(f) => {
            return Err(f);
        },
    };
    let tombstones = match collect_tombstones(&snap.tombstones, limits) {
        Ok(v) => v,
        Err(f) => {
            return Err(f);
        },
    };
    let mut refs: Vec<NodeRef<'a>> = Vec::new();
    assert(tree::node_refs(refs@) =~= Seq::empty());
    match collect_interaction_blobs(&snap.entries, 2, &mut refs) {
        Ok(_) => {},
        Err(f) => {
            return Err(f);
        },
    }
    assert(tree::node_refs(refs@).len() == refs@.len());
    if refs.len() > MAX_SYNC_NODES {
        return Err(SyncError::TooManyNodes);
    }
    Ok(ReceivedTree { version, index, tombstones, refs })
}

/// The texts of identifiers.
pub open spec fn id_texts(ids: Seq<InteractionId>) -> Set<Seq<char>> {
    ids.map_values(|i: InteractionId| i.text()).to_set()
}

/// The texts of identifiers.
pub fn texts_of_ids(ids: &Vec<InteractionId>) -> (r: TextSet)
    ensures
        r.wf(),
        r@ == id_texts(ids@),
{
    let ghost s = ids@.map_values(|i: InteractionId| i.text());
    let mut out = TextSet::new();
    let mut k: usize = 0;
    assert(s.take(0).to_set() =~= Set::empty());
    while k < ids.len()
        invariant
            k <= ids.len(),
            out.wf(),
            s == ids@.map_values(|i: InteractionId| i.text()),
            out@ == s.take(k as int).to_set(),
        decreases ids.len() - k,
    {
        out.insert(ids[k].as_str());
        proof {
            assert(s.take(k + 1) =~= s.take(k as int).push(s[k as int]));
            lemma_to_set_push(s.take(k as int), s[k as int]);
        }
        k += 1;
    }
    assert(s.take(s.len() as int) =~= s);
    out
}

pub proof fn lemma_to_set_push(s: Seq<Seq<char>>, x: Seq<char>)
    ensures
        s.push(x).to_set() == s.to_set().insert(x),
{
    assert forall|y: Seq<char>| #[trigger]
        s.push(x).to_set().contains(y) <==> s.to_set().insert(x).contains(y) by {
        if s.contains(y) {
            let k = s.index_of(y);
            assert(s.push(x)[k] == y);
        }
        if y == x {
            assert(s.push(x)[s.len() as int] == y);
        }
        if s.push(x).contains(y) {
            let k = s.push(x).index_of(y);
            if k < s.len() {
                assert(s[k] == y);
            }
        }
    }
    assert(s.push(x).to_set() =~= s.to_set().insert(x));
}

/// The text of an identifier in the list is among the texts.
pub proof fn lemma_id_texts(ids: Seq<InteractionId>, id: InteractionId)
    requires
        ids.contains(id),
    ensures
        id_texts(ids).contains(id.text()),
{
    let texts = ids.map_values(|x: InteractionId| x.text());
    let k = ids.index_of(id);
    assert(texts[k] == id.text());
    assert(texts.contains(id.text()));
}

/// The interactions that tombstones suppress.
pub open spec fn suppressed_ids(tombstones: Seq<TombstoneModel>) -> Seq<InteractionId> {
    tombstones.map_values(|t: TombstoneModel| t.interaction_id)
}

/// The interactions that tombstones suppress.
pub fn tombstone_ids(tombstones: &Vec<Tombstone>) -> (r: Vec<InteractionId>)
    ensures
        r@ == suppressed_ids(models::tombstone_models(tombstones@)),
{
    let ghost s = suppressed_ids(models::tombstone_models(tombstones@));
    let mut out: Vec<InteractionId> = Vec::new();
    let mut k: usize = 0;
    while k < tombstones.len()
        invariant
            k <= tombstones.len(),
            s == suppressed_ids(models::tombstone_models(tombstones@)),
            out@ == s.take(k as int),
        decreases tombstones.len() - k,
    {
        assert(s[k as int] == tombstones@[k as int].interaction_id);
        out.push(tombstones[k].interaction_id);
        k += 1;
        assert(out@ =~= s.take(k as int));
    }
    assert(s.take(s.len() as int) =~= s);
    out
}

/// The identifiers that a tree proves published: those of its interactions
/// that no tombstone suppresses, from position `i` on.
pub open spec fn published(
    refs: Seq<(Seq<char>, BlobModel)>,
    i: int,
    dead: Set<Seq<char>>,
    out: Seq<InteractionId>,
) -> Result<Seq<InteractionId>, SyncError>
    decreases refs.len() - i,
{
    if i < 0 || i >= refs.len() {
        Ok(out)
    } else if dead.contains(refs[i].0) {
        published(refs, i + 1, dead, out)
    } else {
        match models::parsed_uuid(refs[i].0) {
            None => Err(SyncError::InvalidInteractionId),
            Some(v) => published(refs, i + 1, dead, out.push(InteractionId { value: v })),
        }
    }
}

fn published_ids(refs: &Vec<NodeRef>, dead: &TextSet) -> (r: Result<Vec<InteractionId>, SyncError>)
    requires
        dead.wf(),
    ensures
        match published(tree::node_refs(refs@), 0, dead@, Seq::empty()) {
            Ok(s) => r matches Ok(v) && v@ == s,
            Err(f) => r matches Err(e) && e == f,
        },
{
    let ghost s = tree::node_refs(refs@);
    let mut out: Vec<InteractionId> = Vec::new();
    assert(out@ =~= Seq::empty());
    let mut i: usize = 0;
    while i < refs.len()
        invariant
            i <= refs.len(),
            dead.wf(),
            s == tree::node_refs(refs@),
            published(s, 0, dead@, Seq::empty()) == published(s, i as int, dead@, out@),
        decreases refs.len() - i,
    {
        assert(s[i as int].0 == refs@[i as int].id@);
        if !dead.contains(refs[i].id.as_str()) {
            match InteractionId::from_str(refs[i].id.as_str()) {
                Ok(id) => {
                    out.push(id);
                },
                Err(_) => {
                    return Err(SyncError::InvalidInteractionId);
                },
            }
        }
        i += 1;
    }
    Ok(out)
}

/// What reading nodes has found so far.
#[verifier::ext_equal]
pub struct NodeScan {
    pub total: int,
    pub contexts: int,
    pub tools: int,
    pub links: int,
    /// One node for each interaction of the tree.
    pub wire: Seq<NodeModel>,
    /// Those the store does not have.
    pub fresh: Seq<NodeModel>,
}

/// The first node with this text as its identifier, from position `k` on.
pub open spec fn find_by_text(nodes: Seq<NodeModel>, id: Seq<char>, k: int) -> Option<NodeModel>
    decreases nodes.len() - k,
{
    if k < 0 || k >= nodes.len() {
        None
    } else if nodes[k].interaction.id.text() == id {
        Some(nodes[k])
    } else {
        find_by_text(nodes, id, k + 1)
    }
}

/// Reading one node.
pub open spec fn node_step(
    id: Seq<char>,
    blob: BlobModel,
    st: NodeScan,
    existing: Set<Seq<char>>,
    max: int,
) -> Result<NodeScan, SyncError> {
    if blob.body.len() > MAX_SYNC_BLOB_BYTES {
        Err(SyncError::NodeTooLarge)
    } else {
        match tree::charged(st.total, blob.body.len() as int, max) {
            Err(f) => Err(f),
            Ok(total) => match blob.node {
                None => Err(SyncError::Malformed),
                Some(n) => {
                    let node = n;
                    let contexts = st.contexts + node.context_items.len();
                    let tools = st.tools + node.tool_executions.len();
                    let links = st.links + node.artifact_links.len();
                    if node.context_items.len() > 256 || node.tool_executions.len() > 256
                        || node.artifact_links.len() > MAX_SYNC_LINKS_PER_NODE {
                        Err(SyncError::NodeCollections)
                    } else if contexts > MAX_SYNC_CONTEXT_ITEMS || tools > MAX_SYNC_TOOL_EXECUTIONS
                        || links > MAX_SYNC_EMBEDDED_LINKS {
                        Err(SyncError::CollectionTotal)
                    } else if node.interaction.id.text() != id {
                        Err(SyncError::NodeFilenameMismatch)
                    } else if sync::node_fault(node) is Some {
                        Err(sync::node_fault(node)->0)
                    } else {
                        match find_by_text(st.wire, id, 0) {
                            Some(previous) => if previous != node {
                                Err(SyncError::ConflictingNodes)
                            } else {
                                Ok(NodeScan { total, contexts, tools, links, ..st })
                            },
                            None => Ok(
                                NodeScan {
                                    total,
                                    contexts,
                                    tools,
                                    links,
                                    wire: st.wire.push(node),
                                    fresh: if existing.contains(id) {
                                        st.fresh
                                    } else {
                                        st.fresh.push(node)
                                    },
                                },
                            ),
                        }
                    }
                },
            },
        }
    }
}

/// Reading the nodes from position `i` on, without the suppressed ones.
pub open spec fn scan_nodes(
    refs: Seq<(Seq<char>, BlobModel)>,
    i: int,
    dead: Set<Seq<char>>,
    existing: Set<Seq<char>>,
    st: NodeScan,
    max: int,
) -> Result<NodeScan, SyncError>
    decreases refs.len() - i,
{
    if i < 0 || i >= refs.len() {
        Ok(st)
    } else if dead.contains(refs[i].0) {
        scan_nodes(refs, i + 1, dead, existing, st, max)
    } else {
        match node_step(refs[i].0, refs[i].1, st, existing, max) {
            Err(f) => Err(f),
            Ok(next) => scan_nodes(refs, i + 1, dead, existing, next, max),
        }
    }
}

/// The start of reading nodes.
pub open spec fn scan_start() -> NodeScan {
    NodeScan {
        total: 0,
        contexts: 0,
        tools: 0,
        links: 0,
        wire: Seq::empty(),
        fresh: Seq::empty(),
    }
}

/// The nodes read.
pub struct ReadNodes {
    pub total: usize,
    pub contexts: usize,
    pub tools: usize,
    pub links: usize,
    pub wire: Vec<SyncNode>,
    pub fresh: Vec<SyncNode>,
}

impl View for ReadNodes {
    type V = NodeScan;

    open spec fn view(&self) -> NodeScan {
        NodeScan {
            total: self.total as int,
            contexts: self.contexts as int,
            tools: self.tools as int,
            links: self.links as int,
            wire: sync::node_models(self.wire@),
            fresh: sync::node_models(self.fresh@),
        }
    }
}

fn find_wire<'a>(nodes: &'a Vec<SyncNode>, id: &str) -> (r: Option<&'a SyncNode>)
    ensures
        match r {
            Some(n) => find_by_text(sync::node_models(nodes@), id@, 0) == Some(n@),
            None => find_by_text(sync::node_models(nodes@), id@, 0) is None,
        },
{
    let ghost s = sync::node_models(nodes@);
    let mut k: usize = 0;
    while k < nodes.len()
        invariant
            k <= nodes.len(),
            s == sync::node_models(nodes@),
            find_by_text(s, id@, 0) == find_by_text(s, id@, k as int),
        decreases nodes.len() - k,
    {
        assert(s[k as int] == nodes@[k as int]@);
        if text_equal(nodes[k].interaction.id.as_str().as_str(), id) {
            return Some(&nodes[k]);
        }
        k += 1;
    }
    None
}

fn read_node(id: &str, blob: &NodeBlob, st: &mut ReadNodes, existing: &TextSet, max: usize) -> (r:
    Result<(), SyncError>)
    requires
        existing.wf(),
        old(st).contexts <= MAX_SYNC_CONTEXT_ITEMS,
        old(st).tools <= MAX_SYNC_TOOL_EXECUTIONS,
        old(st).links <= MAX_SYNC_EMBEDDED_LINKS,
    ensures
        match node_step(id@, blob@, old(st)@, existing@, max as int) {
            Ok(next) => {
                &&& r is Ok
                &&& final(st)@ == next
                &&& final(st).contexts <= MAX_SYNC_CONTEXT_ITEMS
                &&& final(st).tools <= MAX_SYNC_TOOL_EXECUTIONS
                &&& final(st).links <= MAX_SYNC_EMBEDDED_LINKS
            },
            Err(f) => r matches Err(e) && e == f,
        },
{
    if blob.body.len() > MAX_SYNC_BLOB_BYTES {
        return Err(SyncError::NodeTooLarge);
    }
    match add_sync_bytes(&mut st.total, blob.body.len(), max) {
        Ok(_) => {},
        Err(f) => {
            return Err(f);
        },
    }
    let node = match &blob.node {
        Some(node) => node,
        None => {
            return Err(SyncError::Malformed);
        },
    };
    assert(node@.context_items.len() == node.context_items@.len());
    assert(node@.tool_executions.len() == node.tool_executions@.len());
    assert(node@.artifact_links.len() == node.artifact_links@.len());
    if node.context_items.len() > 256 || node.tool_executions.len() > 256
        || node.artifact_links.len() > MAX_SYNC_LINKS_PER_NODE {
        return Err(SyncError::NodeCollections);
    }
    st.contexts = st.contexts + node.context_items.len();
    st.tools = st.tools + node.tool_executions.len();
    st.links = st.links + node.artifact_links.len();
    if st.contexts > MAX_SYNC_CONTEXT_ITEMS || st.tools > MAX_SYNC_TOOL_EXECUTIONS || st.links
        > MAX_SYNC_EMBEDDED_LINKS {
        return Err(SyncError::CollectionTotal);
    }
    if !text_equal(node.interaction.id.as_str().as_str(), id) {
        return Err(SyncError::NodeFilenameMismatch);
    }
    match validate_remote_node(node) {
        Ok(_) => {},
        Err(f) => {
            return Err(f);
        },
    }
    let known = match find_wire(&st.wire, id) {
        Some(previous) => {
            if !previous.same(node) {
                return Err(SyncError::ConflictingNodes);
            }
            true
        },
        None => false,
    };
    if !known {
        let ghost wire = sync::node_models(st.wire@);
        let ghost fresh = sync::node_models(st.fresh@);
        st.wire.push(node.clone());
        assert(sync::node_models(st.wire@) =~= wire.push(node@));
        if !existing.contains(id) {
            st.fresh.push(node.clone());
            assert(sync::node_models(st.fresh@) =~= fresh.push(node@));
        }
    }
    Ok(())
}

/// Reads the nodes of a tree.
pub fn read_nodes(refs: &Vec<NodeRef>, dead: &TextSet, existing: &TextSet, max: usize) -> (r: Result<
    ReadNodes,
    SyncError,
>)
    requires
        dead.wf(),
        existing.wf(),
    ensures
        match scan_nodes(tree::node_refs(refs@), 0, dead@, existing@, scan_start(), max as int) {
            Ok(st) => r matches Ok(v) && v@ == st,
            Err(f) => r matches Err(e) && e == f,
        },
{
    let ghost s = tree::node_refs(refs@);
    let mut st = ReadNodes {
        total: 0,
        contexts: 0,
        tools: 0,
        links: 0,
        wire: Vec::new(),
        fresh: Vec::new(),
    };
    assert(st@ =~= scan_start()) by {
        assert(sync::node_models(st.wire@) =~= Seq::empty());
        assert(sync::node_models(st.fresh@) =~= Seq::empty());
    }
    let mut i: usize = 0;
    while i < refs.len()
        invariant
            i <= refs.len(),
            dead.wf(),
            existing.wf(),
            s == tree::node_refs(refs@),
            st.contexts <= MAX_SYNC_CONTEXT_ITEMS,
            st.tools <= MAX_SYNC_TOOL_EXECUTIONS,
            st.links <= MAX_SYNC_EMBEDDED_LINKS,
            scan_nodes(s, 0, dead@, existing@, scan_start(), max as int) == scan_nodes(
                s,
                i as int,
                dead@,
                existing@,
                st@,
                max as int,
            ),
        decreases refs.len() - i,
    {
        assert(s[i as int] == (refs@[i as int].id@, refs@[i as int].blob@));
        if !dead.contains(refs[i].id.as_str()) {
            match read_node(refs[i].id.as_str(), refs[i].blob, &mut st, existing, max) {
                Ok(_) => {},
                Err(f) => {
                    return Err(f);
                },
            }
        }
        i += 1;
    }
    Ok(st)
}

/// The direct links of a node as source texts, from position `j` on.
pub open spec fn add_link_sources(
    path: Seq<char>,
    links: Seq<LinkModel>,
    j: int,
    out: Set<Seq<char>>,
) -> Set<Seq<char>>
    decreases links.len() - j,
{
    if j < 0 || j >= links.len() {
        out
    } else {
        add_link_sources(
            path,
            links,
            j + 1,
            if links[j].interaction_id.text() == path {
                out.insert(derivation::legacy_text(path, links[j].git_commit_hash))
            } else {
                out
            },
        )
    }
}

/// The link records as source texts, from position `k` on.
pub open spec fn add_record_sources(
    records: Seq<LinkRecordModel>,
    k: int,
    out: Set<Seq<char>>,
) -> Set<Seq<char>>
    decreases records.len() - k,
{
    if k < 0 || k >= records.len() {
        out
    } else {
        add_record_sources(
            records,
            k + 1,
            out.insert(derivation::legacy_text(records[k].interaction_id, records[k].git_commit_hash)),
        )
    }
}

/// The direct links of all nodes of a tree as source texts, from position `k` on.
pub open spec fn ref_sources(
    refs: Seq<(Seq<char>, BlobModel)>,
    k: int,
    out: Set<Seq<char>>,
) -> Result<Set<Seq<char>>, SyncError>
    decreases refs.len() - k,
{
    if k < 0 || k >= refs.len() {
        Ok(out)
    } else {
        match refs[k].1.node {
            None => Err(SyncError::Malformed),
            Some(n) => ref_sources(
                refs,
                k + 1,
                add_link_sources(refs[k].0, n.artifact_links, 0, out),
            ),
        }
    }
}

/// Every direct link that a tree holds, in its nodes and its link records.
pub open spec fn legacy_sources(snap: TreeModel) -> Result<Set<Seq<char>>, SyncError> {
    match tree::node_blobs(snap.entries, 2, 0, Seq::empty()) {
        Err(f) => Err(f),
        Ok(refs) => match ref_sources(refs, 0, Set::empty()) {
            Err(f) => Err(f),
            Ok(set) => match tree::read_links(snap.links, 0, MAX_SYNC_TOTAL_BYTES as int) {
                Err(f) => Err(f),
                Ok((records, _)) => Ok(add_record_sources(records, 0, set)),
            },
        },
    }
}

fn legacy_key(interaction: &str, commit: &str) -> (r: String)
    ensures
        r@ == derivation::legacy_text(interaction@, commit@),
{
    let mut r = glue3("legacy:", interaction, ":");
    r.append(commit);
    r
}

fn insert_link_sources(path: &str, links: &Vec<ArtifactLink>, out: &mut StringHashSet)
    ensures
        final(out)@ == add_link_sources(path@, models::link_models(links@), 0, old(out)@),
{
    let ghost s = models::link_models(links@);
    let mut j: usize = 0;
    while j < links.len()
        invariant
            j <= links.len(),
            s == models::link_models(links@),
            add_link_sources(path@, s, 0, old(out)@) == add_link_sources(path@, s, j as int, out@),
        decreases links.len() - j,
    {
        assert(s[j as int] == links@[j as int]@);
        if text_equal(links[j].interaction_id.as_str().as_str(), path) {
            out.insert(legacy_key(path, links[j].git_commit_hash.as_str()));
        }
        j += 1;
    }
}

fn insert_record_sources(records: &Vec<SyncLinkRecord>, out: &mut StringHashSet)
    ensures
        final(out)@ == add_record_sources(tree::link_record_models(records@), 0, old(out)@),
{
    let ghost s = tree::link_record_models(records@);
    let mut k: usize = 0;
    while k < records.len()
        invariant
            k <= records.len(),
            s == tree::link_record_models(records@),
            add_record_sources(s, 0, old(out)@) == add_record_sources(s, k as int, out@),
        decreases records.len() - k,
    {
        assert(s[k as int] == records@[k as int]@);
        out.insert(
            legacy_key(records[k].interaction_id.as_str(), records[k].git_commit_hash.as_str()),
        );
        k += 1;
    }
}

/// Every direct link that a tree holds, named by its source text.
pub fn projected_legacy_sources(snap: &Snapshot) -> (r: Result<StringHashSet, SyncError>)
    ensures
        match legacy_sources(snap@) {
            Ok(s) => r matches Ok(v) && v@ == s,
            Err(f) => r matches Err(e) && e == f,
        },
{
    let mut refs: Vec<NodeRef> = Vec::new();
    assert(tree::node_refs(refs@) =~= Seq::empty());
    match collect_interaction_blobs(&snap.entries, 2, &mut refs) {
        Ok(_) => {},
        Err(f) => {
            return Err(f);
        },
    }
    let ghost s = tree::node_refs(refs@);
    let mut out = StringHashSet::new();
    let mut k: usize = 0;
    while k < refs.len()
        invariant
            k <= refs.len(),
            s == tree::node_refs(refs@),
            tree::node_blobs(snap@.entries, 2, 0, Seq::empty()) == Ok::<
                Seq<(Seq<char>, BlobModel)>,
                SyncError,
            >(s),
            ref_sources(s, 0, Set::empty()) == ref_sources(s, k as int, out@),
        decreases refs.len() - k,
    {
        assert(s[k as int] == (refs@[k as int].id@, refs@[k as int].blob@));
        match &refs[k].blob.node {
            None => {
                return Err(SyncError::Malformed);
            },
            Some(node) => {
                insert_link_sources(refs[k].id.as_str(), &node.artifact_links, &mut out);
            },
        }
        k += 1;
    }
    let mut decoded: usize = 0;
    match collect_link_records(&snap.links, &mut decoded, MAX_SYNC_TOTAL_BYTES) {
        Err(f) => Err(f),
        Ok(records) => {
            insert_record_sources(&records, &mut out);
            Ok(out)
        },
    }
}

/// The direct links of nodes as source texts, from position `k` on.
pub open spec fn node_sources(nodes: Seq<NodeModel>, k: int, out: Set<Seq<char>>) -> Set<Seq<char>>
    decreases nodes.len() - k,
{
    if k < 0 || k >= nodes.len() {
        out
    } else {
        node_sources(
            nodes,
            k + 1,
            add_node_links(nodes[k].interaction.id.text(), nodes[k].artifact_links, 0, out),
        )
    }
}

/// The links of a node as source texts, from position `j` on.
pub open spec fn add_node_links(
    id: Seq<char>,
    links: Seq<LinkModel>,
    j: int,
    out: Set<Seq<char>>,
) -> Set<Seq<char>>
    decreases links.len() - j,
{
    if j < 0 || j >= links.len() {
        out
    } else {
        add_node_links(id, links, j + 1, out.insert(derivation::legacy_text(id, links[j].git_commit_hash)))
    }
}

fn insert_node_sources(nodes: &Vec<SyncNode>, out: &mut StringHashSet)
    ensures
        final(out)@ == node_sources(sync::node_models(nodes@), 0, old(out)@),
{
    let ghost s = sync::node_models(nodes@);
    let mut k: usize = 0;
    while k < nodes.len()
        invariant
            k <= nodes.len(),
            s == sync::node_models(nodes@),
            node_sources(s, 0, old(out)@) == node_sources(s, k as int, out@),
        decreases nodes.len() - k,
    {
        let node = &nodes[k];
        assert(s[k as int] == node@);
        let id = node.interaction.id.as_str();
        let ghost start = out@;
        let ghost ls = node@.artifact_links;
        let mut j: usize = 0;
        while j < node.artifact_links.len()
            invariant
                j <= node.artifact_links.len(),
                ls == models::link_models(node.artifact_links@),
                id@ == node@.interaction.id.text(),
                add_node_links(id@, ls, 0, start) == add_node_links(id@, ls, j as int, out@),
            decreases node.artifact_links.len() - j,
        {
            assert(ls[j as int] == node.artifact_links@[j as int]@);
            out.insert(legacy_key(id.as_str(), node.artifact_links[j].git_commit_hash.as_str()));
            j += 1;
        }
        k += 1;
    }
}

/// The places of a node's links in the index, from position `j` on.
pub open spec fn add_link_paths(
    id: Seq<char>,
    links: Seq<LinkModel>,
    j: int,
    out: Set<Seq<char>>,
) -> Set<Seq<char>>
    decreases links.len() - j,
{
    if j < 0 || j >= links.len() {
        out
    } else {
        add_link_paths(id, links, j + 1, out.insert(tree::index_path(links[j].git_commit_hash, id)))
    }
}

/// The places of all nodes' links in the index, from position `k` on.
pub open spec fn node_paths(nodes: Seq<NodeModel>, k: int, out: Set<Seq<char>>) -> Set<Seq<char>>
    decreases nodes.len() - k,
{
    if k < 0 || k >= nodes.len() {
        out
    } else {
        node_paths(
            nodes,
            k + 1,
            add_link_paths(nodes[k].interaction.id.text(), nodes[k].artifact_links, 0, out),
        )
    }
}

/// The places of link records in the index, from position `k` on.
pub open spec fn record_paths(
    records: Seq<LinkRecordModel>,
    k: int,
    out: Set<Seq<char>>,
) -> Set<Seq<char>>
    decreases records.len() - k,
{
    if k < 0 || k >= records.len() {
        out
    } else {
        record_paths(
            records,
            k + 1,
            out.insert(tree::index_path(records[k].git_commit_hash, records[k].interaction_id)),
        )
    }
}

/// The places of events in the index, from position `k` on.
pub open spec fn event_paths(events: Seq<EventModel>, k: int, out: Set<Seq<char>>) -> Set<Seq<char>>
    decreases events.len() - k,
{
    if k < 0 || k >= events.len() {
        out
    } else {
        event_paths(
            events,
            k + 1,
            out.insert(tree::index_path(events[k].target_commit, events[k].interaction_id.text())),
        )
    }
}

/// The index that nodes, link records and events give rise to.
pub open spec fn expected_index(
    nodes: Seq<NodeModel>,
    records: Seq<LinkRecordModel>,
    events: Seq<EventModel>,
) -> Set<Seq<char>> {
    event_paths(events, 0, record_paths(records, 0, node_paths(nodes, 0, Set::empty())))
}

/// Adds the places of a node's links to the index.
pub fn insert_link_paths(id: &str, links: &Vec<ArtifactLink>, out: &mut TextSet)
    requires
        old(out).wf(),
    ensures
        final(out).wf(),
        final(out)@ == add_link_paths(id@, models::link_models(links@), 0, old(out)@),
{
    let ghost ls = models::link_models(links@);
    let mut j: usize = 0;
    while j < links.len()
        invariant
            j <= links.len(),
            out.wf(),
            ls == models::link_models(links@),
            add_link_paths(id@, ls, 0, old(out)@) == add_link_paths(id@, ls, j as int, out@),
        decreases links.len() - j,
    {
        assert(ls[j as int] == links@[j as int]@);
        out.insert(index_entry(links[j].git_commit_hash.as_str(), id));
        j += 1;
    }
}

/// The index that nodes, link records and events give rise to.
pub fn build_index(
    nodes: &Vec<SyncNode>,
    records: &Vec<SyncLinkRecord>,
    events: &Vec<DerivationEvent>,
) -> (r: TextSet)
    ensures
        r.wf(),
        r@ == expected_index(
            sync::node_models(nodes@),
            tree::link_record_models(records@),
            derivation::models(events@),
        ),
{
    let ghost ns = sync::node_models(nodes@);
    let ghost rs = tree::link_record_models(records@);
    let ghost es = derivation::models(events@);
    let mut out = TextSet::new();
    let mut k: usize = 0;
    while k < nodes.len()
        invariant
            k <= nodes.len(),
            out.wf(),
            ns == sync::node_models(nodes@),
            node_paths(ns, 0, Set::empty()) == node_paths(ns, k as int, out@),
        decreases nodes.len() - k,
    {
        assert(ns[k as int] == nodes@[k as int]@);
        let id = nodes[k].interaction.id.as_str();
        insert_link_paths(id.as_str(), &nodes[k].artifact_links, &mut out);
        k += 1;
    }
    let ghost first = out@;
    let mut k: usize = 0;
    while k < records.len()
        invariant
            k <= records.len(),
            out.wf(),
            rs == tree::link_record_models(records@),
            record_paths(rs, 0, first) == record_paths(rs, k as int, out@),
        decreases records.len() - k,
    {
        assert(rs[k as int] == records@[k as int]@);
        out.insert(
            index_entry(records[k].git_commit_hash.as_str(), records[k].interaction_id.as_str()),
        );
        k += 1;
    }
    let ghost second = out@;
    let mut k: usize = 0;
    while k < events.len()
        invariant
            k <= events.len(),
            out.wf(),
            es == derivation::models(events@),
            event_paths(es, 0, second) == event_paths(es, k as int, out@),
        decreases events.len() - k,
    {
        assert(es[k as int] == events@[k as int]@);
        let id = events[k].interaction_id.as_str();
        out.insert(index_entry(events[k].target_commit.as_str(), id.as_str()));
        k += 1;
    }
    out
}

/// The places of suppressed interactions in an index of any commits.
pub open spec fn dead_path(path: Seq<char>, dead: Set<Seq<char>>) -> bool {
    path.len() >= 41 && dead.contains(path.skip(41))
}

/// An index without the suppressed interactions.
pub open spec fn live_index(index: Set<Seq<char>>, dead: Set<Seq<char>>) -> Set<Seq<char>> {
    index.filter(|p: Seq<char>| !dead_path(p, dead))
}

/// The index without the suppressed interactions.
fn drop_dead_paths(index: &TextSet, dead: &TextSet) -> (r: TextSet)
    requires
        index.wf(),
        dead.wf(),
    ensures
        r.wf(),
        r@ == live_index(index@, dead@),
{
    let ghost s = index.list.deep_view();
    let ghost keep = |p: Seq<char>| !dead_path(p, dead@);
    let mut out = TextSet::new();
    let mut k: usize = 0;
    assert(s.take(0).to_set().filter(keep) =~= Set::empty());
    while k < index.list.len()
        invariant
            k <= index.list.len(),
            dead.wf(),
            out.wf(),
            s == index.list.deep_view(),
            keep == (|p: Seq<char>| !dead_path(p, dead@)),
            out@ == s.take(k as int).to_set().filter(keep),
        decreases index.list.len() - k,
    {
        assert(s[k as int] == index.list@[k as int]@);
        proof {
            assert(s.take(k + 1) =~= s.take(k as int).push(s[k as int]));
            lemma_to_set_push(s.take(k as int), s[k as int]);
        }
        let chars = chars_of(index.list[k].as_str());
        let gone = if chars.len() >= 41 {
            let id = text_of(chars.as_slice(), 41, chars.len());
            assert(id@ =~= s[k as int].skip(41));
            dead.contains(id.as_str())
        } else {
            false
        };
        if !gone {
            out.insert(index.list[k].clone());
            assert(out@ =~= s.take(k + 1).to_set().filter(keep));
        } else {
            assert(out@ =~= s.take(k + 1).to_set().filter(keep));
        }
        k += 1;
    }
    assert(s.take(s.len() as int) =~= s);
    out
}

/// The evidence of a received tree.
pub struct EvidenceModel {
    pub records: Seq<LinkRecordModel>,
    pub events: Seq<EventModel>,
    pub ranges: Seq<RangeModel>,
}

/// The records that no tombstone suppresses.
pub open spec fn live_records(records: Seq<LinkRecordModel>, dead: Set<Seq<char>>) -> Seq<
    LinkRecordModel,
> {
    records.filter(|r: LinkRecordModel| !dead.contains(r.interaction_id))
}

/// A squash event whose range is among the given ones, or another event.
pub open spec fn range_present(e: EventModel, ranges: Seq<RangeModel>) -> bool {
    e.relation == DerivationRelation::SquashExact ==> exists|k: int|
        0 <= k < ranges.len() && e.range_id == Some((#[trigger] ranges[k]).range_id)
}

/// Reading the links, events and ranges of a received tree. The whole graph is
/// checked before anything is suppressed, so that a tombstone never makes
/// malformed evidence acceptable.
pub open spec fn evidence(
    snap: TreeModel,
    total: int,
    ids: Seq<InteractionId>,
    limits: SyncReadLimits,
) -> Result<EvidenceModel, SyncError> {
    let max = limits.max_total_bytes as int;
    match tree::read_links(snap.links, total, max) {
        Err(f) => Err(f),
        Ok((all_records, t1)) => match tree::read_events(snap.events, t1, max) {
            Err(f) => Err(f),
            Ok(scan) => match legacy_sources(snap) {
                Err(f) => Err(f),
                Ok(legacy) => match derivation::graph_fault(scan.out, legacy) {
                    Some(f) => Err(f),
                    None => match tree::read_ranges(snap.ranges, scan.total, max) {
                        Err(f) => Err(f),
                        Ok(ranges) => {
                            let events = derivation::survivors(scan.out, ids, false);
                            if !(forall|k: int|
                                0 <= k < events.len() ==> range_present(
                                    #[trigger] events[k],
                                    ranges.out,
                                )) {
                                Err(SyncError::MissingRange)
                            } else {
                                Ok(
                                    EvidenceModel {
                                        records: live_records(all_records, id_texts(ids)),
                                        events,
                                        ranges: ranges.out,
                                    },
                                )
                            }
                        },
                    },
                },
            },
        },
    }
}

/// The evidence of a received tree.
pub struct Evidences {
    pub records: Vec<SyncLinkRecord>,
    pub events: Vec<DerivationEvent>,
    pub ranges: Vec<RangeEvidence>,
}

impl View for Evidences {
    type V = EvidenceModel;

    open spec fn view(&self) -> EvidenceModel {
        EvidenceModel {
            records: tree::link_record_models(self.records@),
            events: derivation::models(self.events@),
            ranges: tree::range_models(self.ranges@),
        }
    }
}

fn keep_live_records(records: &Vec<SyncLinkRecord>, dead: &TextSet) -> (r: Vec<SyncLinkRecord>)
    requires
        dead.wf(),
    ensures
        tree::link_record_models(r@) == live_records(tree::link_record_models(records@), dead@),
{
    let ghost s = tree::link_record_models(records@);
    let ghost keep = |r: LinkRecordModel| !dead@.contains(r.interaction_id);
    let mut out: Vec<SyncLinkRecord> = Vec::new();
    let mut k: usize = 0;
    assert(tree::link_record_models(out@) =~= s.take(0).filter(keep)) by {
        reveal(Seq::filter);
    }
    while k < records.len()
        invariant
            k <= records.len(),
            dead.wf(),
            s == tree::link_record_models(records@),
            keep == (|r: LinkRecordModel| !dead@.contains(r.interaction_id)),
            tree::link_record_models(out@) == s.take(k as int).filter(keep),
        decreases records.len() - k,
    {
        proof {
            reveal(Seq::filter);
            assert(s[k as int] == records@[k as int]@);
            assert(s.take(k + 1).drop_last() =~= s.take(k as int));
            assert(s.take(k + 1).last() == s[k as int]);
        }
        if !dead.contains(records[k].interaction_id.as_str()) {
            let ghost held = tree::link_record_models(out@);
            out.push(records[k].clone());
            assert(tree::link_record_models(out@) =~= held.push(s[k as int]));
        }
        k += 1;
    }
    assert(s.take(s.len() as int) =~= s);
    out
}

fn has_range(event: &DerivationEvent, ranges: &Vec<RangeEvidence>) -> (r: bool)
    ensures
        r == range_present(event@, tree::range_models(ranges@)),
{
    if event.relation != DerivationRelation::SquashExact {
        return true;
    }
    let ghost s = tree::range_models(ranges@);
    match &event.range_id {
        None => false,
        Some(id) => {
            let mut k: usize = 0;
            while k < ranges.len()
                invariant
                    k <= ranges.len(),
                    s == tree::range_models(ranges@),
                    event@.range_id == Some(id@),
                    event@.relation == DerivationRelation::SquashExact,
                    forall|j: int| 0 <= j < k ==> (#[trigger] s[j]).range_id != id@,
                decreases ranges.len() - k,
            {
                assert(s[k as int] == ranges@[k as int]@);
                if ranges[k].range_id == *id {
                    assert(event@.range_id == Some(s[k as int].range_id));
                    return true;
                }
                k += 1;
            }
            false
        },
    }
}

fn ranges_present(events: &Vec<DerivationEvent>, ranges: &Vec<RangeEvidence>) -> (r: bool)
    ensures
        r == forall|k: int|
            0 <= k < derivation::models(events@).len() ==> range_present(
                #[trigger] derivation::models(events@)[k],
                tree::range_models(ranges@),
            ),
{
    let ghost es = derivation::models(events@);
    let ghost rs = tree::range_models(ranges@);
    let mut k: usize = 0;
    while k < events.len()
        invariant
            k <= events.len(),
            es == derivation::models(events@),
            rs == tree::range_models(ranges@),
            forall|j: int| 0 <= j < k ==> range_present(#[trigger] es[j], rs),
        decreases events.len() - k,
    {
        assert(es[k as int] == events@[k as int]@);
        if !has_range(&events[k], ranges) {
            assert(!range_present(derivation::models(events@)[k as int], rs));
            return false;
        }
        k += 1;
    }
    true
}

/// Reads the links, events and ranges of a received tree.
pub fn read_evidence(
    snap: &Snapshot,
    total: usize,
    ids: &Vec<InteractionId>,
    dead: &TextSet,
    limits: SyncReadLimits,
) -> (r: Result<Evidences, SyncError>)
    requires
        dead.wf(),
        dead@ == id_texts(ids@),
    ensures
        match evidence(snap@, total as int, ids@, limits) {
            Ok(m) => r matches Ok(v) && v@ == m,
            Err(f) => r matches Err(e) && e == f,
        },
{
    let mut decoded: usize = total;
    let max = limits.max_total_bytes;
    let all_records = match collect_link_records(&snap.links, &mut decoded, max) {
        Ok(v) => v,
        Err(f) => {
            return Err(f);
        },
    };
    let records = keep_live_records(&all_records, dead);
    let incoming = match collect_derivation_events(&snap.events, &mut decoded, max) {
        Ok(v) => v,
        Err(f) => {
            return Err(f);
        },
    };
    let legacy = match projected_legacy_sources(snap) {
        Ok(v) => v,
        Err(f) => {
            return Err(f);
        },
    };
    match validate_closed_derivation_graph(&incoming, &legacy) {
        Ok(_) => {},
        Err(f) => {
            return Err(f);
        },
    }
    let events = retain_event_closure(&incoming, ids, false);
    let ranges = match collect_ranges(&snap.ranges, &mut decoded, max) {
        Ok(v) => v,
        Err(f) => {
            return Err(f);
        },
    };
    if !ranges_present(&events, &ranges) {
        return Err(SyncError::MissingRange);
    }
    Ok(Evidences { records, events, ranges })
}

/// The parent of a node is another of the list.
pub open spec fn child_of(nodes: Seq<NodeModel>, i: int, j: int) -> bool {
    &&& 0 <= i < nodes.len()
    &&& 0 <= j < nodes.len()
    &&& nodes[i].interaction.parent_id == Some(nodes[j].interaction.id)
}

/// No interaction is among its own ancestors.
pub open spec fn ancestry_acyclic(nodes: Seq<NodeModel>) -> bool {
    exists|rank: Seq<nat>| ancestry_ranked(nodes, rank)
}

/// The rank decreases from every node to its parent.
pub open spec fn ancestry_ranked(nodes: Seq<NodeModel>, rank: Seq<nat>) -> bool {
    &&& rank.len() == nodes.len()
    &&& forall|i: int, j: int| #[trigger] child_of(nodes, i, j) ==> rank[j] < rank[i]
}

/// No node stands before its parent.
pub open spec fn parents_first(nodes: Seq<NodeModel>) -> bool {
    forall|a: int, b: int| 0 <= a <= b < nodes.len() ==> !#[trigger] child_of(nodes, a, b)
}

/// `out` holds the nodes of `nodes`, each once, in the given order.
pub open spec fn rearranged(nodes: Seq<NodeModel>, out: Seq<NodeModel>, order: Seq<usize>) -> bool {
    &&& graph::is_arrangement(order, nodes.len())
    &&& out.len() == nodes.len()
    &&& forall|k: int| 0 <= k < out.len() ==> #[trigger] out[k] == nodes[order[k] as int]
}

/// The same nodes, none before its parent.
pub open spec fn is_import_order(nodes: Seq<NodeModel>, out: Seq<NodeModel>) -> bool {
    &&& parents_first(out)
    &&& exists|order: Seq<usize>| #[trigger] rearranged(nodes, out, order)
}

/// Puts nodes into an order in which no node stands before its parent; fails
/// exactly when an interaction is its own ancestor.
pub fn import_order(nodes: &Vec<SyncNode>) -> (r: Result<Vec<SyncNode>, SyncError>)
    ensures
        match r {
            Ok(v) => ancestry_acyclic(sync::node_models(nodes@)) && is_import_order(
                sync::node_models(nodes@),
                sync::node_models(v@),
            ),
            Err(f) => f == SyncError::DependencyCycle && !ancestry_acyclic(sync::node_models(nodes@)),
        },
{
    let ghost ms = sync::node_models(nodes@);
    let n: usize = nodes.len();
    let mut parents: Vec<Vec<usize>> = Vec::new();
    let mut i: usize = 0;
    while i < n
        invariant
            i <= n,
            n == nodes.len(),
            ms == sync::node_models(nodes@),
            parents.len() == i,
            forall|a: int, j: int|
                0 <= a < i && 0 <= j < parents@[a]@.len() ==> (#[trigger] parents@[a]@[j]) < n
                    && child_of(ms, a, parents@[a]@[j] as int),
            forall|a: int, b: int|
                0 <= a < i && #[trigger] child_of(ms, a, b) ==> parents@[a]@.contains(b as usize),
        decreases n - i,
    {
        assert(ms[i as int] == nodes@[i as int]@);
        let mut row: Vec<usize> = Vec::new();
        match nodes[i].interaction.parent_id {
            None => {},
            Some(p) => {
                let mut j: usize = 0;
                while j < n
                    invariant
                        j <= n,
                        i < n,
                        n == nodes.len(),
                        ms == sync::node_models(nodes@),
                        ms[i as int].interaction.parent_id == Some(p),
                        forall|k: int|
                            0 <= k < row@.len() ==> (#[trigger] row@[k]) < n && child_of(
                                ms,
                                i as int,
                                row@[k] as int,
                            ),
                        forall|b: int|
                            0 <= b < j && #[trigger] child_of(ms, i as int, b) ==> row@.contains(
                                b as usize,
                            ),
                    decreases n - j,
                {
                    assert(ms[j as int] == nodes@[j as int]@);
                    let ghost held = row@;
                    if nodes[j].interaction.id == p {
                        row.push(j);
                        assert(row@[held.len() as int] == j);
                    }
                    proof {
                        assert forall|b: int|
                            0 <= b < j + 1 && #[trigger] child_of(
                                ms,
                                i as int,
                                b,
                            ) implies row@.contains(b as usize) by {
                            if b < j {
                                let k = held.index_of(b as usize);
                                assert(row@[k] == b as usize);
                            }
                        }
                    }
                    j += 1;
                }
            },
        }
        parents.push(row);
        i += 1;
    }
    let order = match arrange(&parents) {
        Some(order) => order,
        None => {
            proof {
                if ancestry_acyclic(ms) {
                    let rank = choose|rank: Seq<nat>| ancestry_ranked(ms, rank);
                    assert(graph::ranked(parents@, rank));
                }
            }
            return Err(SyncError::DependencyCycle);
        },
    };
    proof {
        let rank = choose|rank: Seq<nat>| graph::ranked(parents@, rank);
        assert forall|a: int, b: int| #[trigger] child_of(ms, a, b) implies rank[b] < rank[a] by {
            assert(parents@[a]@.contains(b as usize));
            let j = parents@[a]@.index_of(b as usize);
            assert(rank[parents@[a]@[j] as int] < rank[a]);
        }
        assert(ancestry_ranked(ms, rank));
    }
    let mut out: Vec<SyncNode> = Vec::new();
    let mut k: usize = 0;
    while k < n
        invariant
            k <= n,
            n == nodes.len(),
            ms == sync::node_models(nodes@),
            graph::is_arrangement(order@, n as nat),
            out.len() == k,
            forall|a: int| 0 <= a < k ==> (#[trigger] out@[a])@ == ms[order@[a] as int],
        decreases n - k,
    {
        let at: usize = order[k];
        assert(at == order@[k as int]);
        assert(ms[at as int] == nodes@[at as int]@);
        out.push(nodes[at].clone());
        k += 1;
    }
    proof {
        let v = sync::node_models(out@);
        assert(rearranged(ms, v, order@));
        assert forall|a: int, b: int| 0 <= a <= b < v.len() implies !#[trigger] child_of(
            v,
            a,
            b,
        ) by {
            if child_of(v, a, b) {
                assert(v[a] == out@[a]@ && v[b] == out@[b]@);
                let x = order@[a] as int;
                let y = order@[b] as int;
                assert(child_of(ms, x, y));
                assert(parents@[x]@.contains(y as usize));
                let j = parents@[x]@.index_of(y as usize);
                assert(graph::ready(parents@, order@, a, order@[a] as int));
                assert(graph::before(order@, a, parents@[x]@[j]));
                let p = choose|p: int| 0 <= p < a && #[trigger] order@[p] == parents@[x]@[j];
                assert(order@[p] != order@[b]);
            }
        }
        assert(is_import_order(ms, v));
    }
    Ok(out)
}

/// A node whose parent is suppressed stands alone.
pub open spec fn detached(node: NodeModel, dead: Set<Seq<char>>) -> NodeModel {
    if node.interaction.parent_id matches Some(p) && dead.contains(p.text()) {
        NodeModel {
            interaction: InteractionModel { parent_id: None, ..node.interaction },
            ..node
        }
    } else {
        node
    }
}

fn detach_all(nodes: &Vec<SyncNode>, dead: &TextSet) -> (r: Vec<SyncNode>)
    requires
        dead.wf(),
    ensures
        sync::node_models(r@) == sync::node_models(nodes@).map_values(|n: NodeModel| detached(n, dead@)),
{
    let ghost s = sync::node_models(nodes@).map_values(|n: NodeModel| detached(n, dead@));
    let mut out: Vec<SyncNode> = Vec::new();
    let mut k: usize = 0;
    while k < nodes.len()
        invariant
            k <= nodes.len(),
            dead.wf(),
            s == sync::node_models(nodes@).map_values(|n: NodeModel| detached(n, dead@)),
            sync::node_models(out@) == s.take(k as int),
        decreases nodes.len() - k,
    {
        let ghost held = sync::node_models(out@);
        let mut node = nodes[k].clone();
        let gone = match node.interaction.parent_id {
            Some(p) => dead.contains(p.as_str().as_str()),
            None => false,
        };
        if gone {
            node.interaction.parent_id = None;
        }
        assert(node@ == detached(nodes@[k as int]@, dead@));
        out.push(node);
        assert(sync::node_models(out@) =~= held.push(node@));
        k += 1;
        assert(sync::node_models(out@) =~= s.take(k as int));
    }
    assert(s.take(s.len() as int) =~= s);
    out
}

/// The texts of the interactions of nodes, from position `k` on, added to a set.
pub open spec fn add_node_ids(nodes: Seq<NodeModel>, k: int, out: Set<Seq<char>>) -> Set<Seq<char>>
    decreases nodes.len() - k,
{
    if k < 0 || k >= nodes.len() {
        out
    } else {
        add_node_ids(nodes, k + 1, out.insert(nodes[k].interaction.id.text()))
    }
}

/// What is imported from an accepted tree.
pub struct AcceptedModel {
    pub nodes: Seq<NodeModel>,
    pub records: Seq<LinkRecordModel>,
    pub events: Seq<EventModel>,
    pub ranges: Seq<RangeModel>,
    pub tombstones: Seq<TombstoneModel>,
    pub published: Seq<InteractionId>,
}

/// The interaction of every event is known.
pub open spec fn events_known(events: Seq<EventModel>, known: Set<Seq<char>>) -> bool {
    forall|k: int|
        0 <= k < events.len() ==> known.contains((#[trigger] events[k]).interaction_id.text())
}

/// What is imported once nodes and evidence have been read.
pub open spec fn reconciled(
    rc: ReceivedModel,
    published: Seq<InteractionId>,
    st: NodeScan,
    ev: EvidenceModel,
    existing: Set<Seq<char>>,
    stored: Seq<LinkModel>,
) -> Result<AcceptedModel, SyncError> {
    let dead = id_texts(suppressed_ids(rc.tombstones));
    let legacy = add_record_sources(ev.records, 0, node_sources(st.wire, 0, Set::empty()));
    let known = add_node_ids(st.fresh, 0, existing);
    let nodes = st.fresh.map_values(|n: NodeModel| detached(n, dead));
    match derivation::graph_fault(ev.events, legacy) {
        Some(f) => Err(f),
        None => if rc.version >= 2 && live_index(rc.index, dead) != expected_index(
            st.wire,
            ev.records,
            ev.events,
        ) {
            Err(SyncError::InconsistentIndex)
        } else {
            match sync::records_fault(ev.records, 0, known, stored, st.fresh) {
                Some(f) => Err(f),
                None => if !events_known(ev.events, known) {
                    Err(SyncError::MissingInteraction)
                } else if !ancestry_acyclic(nodes) {
                    Err(SyncError::DependencyCycle)
                } else {
                    Ok(
                        AcceptedModel {
                            nodes,
                            records: ev.records,
                            events: ev.events,
                            ranges: ev.ranges,
                            tombstones: rc.tombstones,
                            published,
                        },
                    )
                },
            }
        },
    }
}

/// What is imported from a received tree, given the interactions that the
/// store has and the links it holds.
pub open spec fn accepted(
    snap: TreeModel,
    existing: Set<Seq<char>>,
    stored: Seq<LinkModel>,
    limits: SyncReadLimits,
) -> Result<AcceptedModel, SyncError> {
    match received(snap, limits) {
        Err(f) => Err(f),
        Ok(rc) => {
            let ids = suppressed_ids(rc.tombstones);
            match published(rc.refs, 0, id_texts(ids), Seq::empty()) {
                Err(f) => Err(f),
                Ok(published) => match scan_nodes(
                    rc.refs,
                    0,
                    id_texts(ids),
                    existing,
                    scan_start(),
                    limits.max_total_bytes as int,
                ) {
                    Err(f) => Err(f),
                    Ok(st) => match evidence(snap, st.total, ids, limits) {
                        Err(f) => Err(f),
                        Ok(ev) => reconciled(rc, published, st, ev, existing, stored),
                    },
                },
            }
        },
    }
}

/// What is imported from an accepted tree; no node stands before its parent.
pub struct AcceptedImport {
    pub nodes: Vec<SyncNode>,
    pub records: Vec<SyncLinkRecord>,
    pub events: Vec<DerivationEvent>,
    pub ranges: Vec<RangeEvidence>,
    pub tombstones: Vec<Tombstone>,
    pub published: Vec<InteractionId>,
}

impl AcceptedImport {
    pub open spec fn stands_for(self, m: AcceptedModel) -> bool {
        &&& is_import_order(m.nodes, sync::node_models(self.nodes@))
        &&& tree::link_record_models(self.records@) == m.records
        &&& derivation::models(self.events@) == m.events
        &&& tree::range_models(self.ranges@) == m.ranges
        &&& models::tombstone_models(self.tombstones@) == m.tombstones
        &&& self.published@ == m.published
    }
}

fn insert_node_ids(nodes: &Vec<SyncNode>, out: &mut TextSet)
    requires
        old(out).wf(),
    ensures
        final(out).wf(),
        final(out)@ == add_node_ids(sync::node_models(nodes@), 0, old(out)@),
{
    let ghost s = sync::node_models(nodes@);
    let mut k: usize = 0;
    while k < nodes.len()
        invariant
            k <= nodes.len(),
            out.wf(),
            s == sync::node_models(nodes@),
            add_node_ids(s, 0, old(out)@) == add_node_ids(s, k as int, out@),
        decreases nodes.len() - k,
    {
        assert(s[k as int] == nodes@[k as int]@);
        out.insert(nodes[k].interaction.id.as_str());
        k += 1;
    }
}

fn all_events_known(events: &Vec<DerivationEvent>, known: &TextSet) -> (r: bool)
    requires
        known.wf(),
    ensures
        r == events_known(derivation::models(events@), known@),
{
    let ghost s = derivation::models(events@);
    let mut k: usize = 0;
    while k < events.len()
        invariant
            k <= events.len(),
            known.wf(),
            s == derivation::models(events@),
            forall|i: int|
                0 <= i < k ==> known@.contains((#[trigger] s[i]).interaction_id.text()),
        decreases events.len() - k,
    {
        assert(s[k as int] == events@[k as int]@);
        if !known.contains(events[k].interaction_id.as_str().as_str()) {
            assert(!known@.contains(derivation::models(events@)[k as int].interaction_id.text()));
            return false;
        }
        k += 1;
    }
    true
}

fn reconcile(
    rc: ReceivedTree,
    published: Vec<InteractionId>,
    st: ReadNodes,
    ev: Evidences,
    dead: &TextSet,
    existing: TextSet,
    stored: &Vec<ArtifactLink>,
    Ghost(rm): Ghost<ReceivedModel>,
) -> (r: Result<AcceptedImport, SyncError>)
    requires
        rc.stands_for(rm),
        dead.wf(),
        dead@ == id_texts(suppressed_ids(rm.tombstones)),
        existing.wf(),
    ensures
        match reconciled(rm, published@, st@, ev@, existing@, models::link_models(stored@)) {
            Ok(m) => r matches Ok(v) && v.stands_for(m),
            Err(f) => r matches Err(e) && e == f,
        },
{
    let mut legacy = StringHashSet::new();
    insert_node_sources(&st.wire, &mut legacy);
    insert_record_sources(&ev.records, &mut legacy);
    match validate_closed_derivation_graph(&ev.events, &legacy) {
        Ok(_) => {},
        Err(f) => {
            return Err(f);
        },
    }
    if rc.version >= 2 {
        let live = drop_dead_paths(&rc.index, dead);
        let expected = build_index(&st.wire, &ev.records, &ev.events);
        if !live.same(&expected) {
            return Err(SyncError::InconsistentIndex);
        }
    }
    let mut known = existing;
    insert_node_ids(&st.fresh, &mut known);
    match validate_records_against_store(stored, &ev.records, &known, &st.fresh) {
        Ok(_) => {},
        Err(f) => {
            return Err(f);
        },
    }
    if !all_events_known(&ev.events, &known) {
        return Err(SyncError::MissingInteraction);
    }
    let standing = detach_all(&st.fresh, dead);
    let nodes = match import_order(&standing) {
        Ok(v) => v,
        Err(f) => {
            return Err(f);
        },
    };
    Ok(
        AcceptedImport {
            nodes,
            records: ev.records,
            events: ev.events,
            ranges: ev.ranges,
            tombstones: rc.tombstones,
            published,
        },
    )
}

/// Decides what is imported from a received tree.
pub fn accept_snapshot(
    snap: &Snapshot,
    existing_ids: &Vec<InteractionId>,
    stored_links: &Vec<ArtifactLink>,
    limits: SyncReadLimits,
) -> (r: Result<AcceptedImport, SyncError>)
    ensures
        match accepted(snap@, id_texts(existing_ids@), models::link_models(stored_links@), limits) {
            Ok(m) => r matches Ok(v) && v.stands_for(m),
            Err(f) => r matches Err(e) && e == f,
        },
{
    let rc = match receive(snap, limits) {
        Ok(v) => v,
        Err(f) => {
            return Err(f);
        },
    };
    let ghost rm = received(snap@, limits)->Ok_0;
    let ids = tombstone_ids(&rc.tombstones);
    let dead = texts_of_ids(&ids);
    let existing = texts_of_ids(existing_ids);
    let published = match published_ids(&rc.refs, &dead) {
        Ok(v) => v,
        Err(f) => {
            return Err(f);
        },
    };
    let st = match read_nodes(&rc.refs, &dead, &existing, limits.max_total_bytes) {
        Ok(v) => v,
        Err(f) => {
            return Err(f);
        },
    };
    let ev = match read_evidence(snap, st.total, &ids, &dead, limits) {
        Ok(v) => v,
        Err(f) => {
            return Err(f);
        },
    };
    reconcile(rc, published, st, ev, &dead, existing, stored_links, Ghost(rm))
}

/// Reading nodes keeps none of a suppressed interaction.
proof fn lemma_scan_live(
    refs: Seq<(Seq<char>, BlobModel)>,
    i: int,
    dead: Set<Seq<char>>,
    existing: Set<Seq<char>>,
    st: NodeScan,
    max: int,
)
    requires
        0 <= i,
        forall|k: int|
            0 <= k < st.fresh.len() ==> !dead.contains(
                (#[trigger] st.fresh[k]).interaction.id.text(),
            ),
        scan_nodes(refs, i, dead, existing, st, max) is Ok,
    ensures
        ({
            let out = scan_nodes(refs, i, dead, existing, st, max)->Ok_0;
            forall|k: int|
                0 <= k < out.fresh.len() ==> !dead.contains(
                    (#[trigger] out.fresh[k]).interaction.id.text(),
                )
        }),
    decreases refs.len() - i,
{
    if i < refs.len() {
        if dead.contains(refs[i].0) {
            lemma_scan_live(refs, i + 1, dead, existing, st, max);
        } else {
            let next = node_step(refs[i].0, refs[i].1, st, existing, max)->Ok_0;
            lemma_scan_live(refs, i + 1, dead, existing, next, max);
        }
    }
}

/// Nothing that a tombstone of the tree suppresses is imported: no node and no
/// link record of such an interaction, and no event of it or naming it.
pub proof fn law_import_excludes_suppressed(
    snap: TreeModel,
    existing: Set<Seq<char>>,
    stored: Seq<LinkModel>,
    limits: SyncReadLimits,
    t: int,
)
    requires
        accepted(snap, existing, stored, limits) is Ok,
        0 <= t < (accepted(snap, existing, stored, limits)->Ok_0).tombstones.len(),
    ensures
        ({
            let m = accepted(snap, existing, stored, limits)->Ok_0;
            let id = m.tombstones[t].interaction_id;
            &&& forall|k: int|
                0 <= k < m.nodes.len() ==> (#[trigger] m.nodes[k]).interaction.id.text()
                    != id.text()
            &&& forall|k: int|
                0 <= k < m.records.len() ==> (#[trigger] m.records[k]).interaction_id != id.text()
            &&& forall|k: int|
                0 <= k < m.events.len() ==> !derivation::directly_suppressed(
                    #[trigger] m.events[k],
                    suppressed_ids(m.tombstones),
                    false,
                )
        }),
{
    let m = accepted(snap, existing, stored, limits)->Ok_0;
    let rc = received(snap, limits)->Ok_0;
    let ids = suppressed_ids(rc.tombstones);
    let dead = id_texts(ids);
    let max = limits.max_total_bytes as int;
    let st = scan_nodes(rc.refs, 0, dead, existing, scan_start(), max)->Ok_0;
    let id = m.tombstones[t].interaction_id;
    let texts = ids.map_values(|i: InteractionId| i.text());
    assert(texts[t] == id.text());
    assert(dead.contains(id.text()));
    lemma_scan_live(rc.refs, 0, dead, existing, scan_start(), max);
    assert forall|k: int| 0 <= k < m.nodes.len() implies (
    #[trigger] m.nodes[k]).interaction.id.text() != id.text() by {
        assert(m.nodes[k] == detached(st.fresh[k], dead));
        assert(!dead.contains(st.fresh[k].interaction.id.text()));
    }
    let all = tree::read_links(snap.links, st.total, max)->Ok_0;
    assert forall|k: int| 0 <= k < m.records.len() implies (
    #[trigger] m.records[k]).interaction_id != id.text() by {
        lemma_live_record(all.0, dead, k);
    }
    let t1 = all.1;
    let scan = tree::read_events(snap.events, t1, max)->Ok_0;
    assert forall|k: int| 0 <= k < m.events.len() implies !derivation::directly_suppressed(
        #[trigger] m.events[k],
        ids,
        false,
    ) by {
        derivation::law_survivors_are_clean(scan.out, ids, false, k);
    }
}

proof fn lemma_live_record(records: Seq<LinkRecordModel>, dead: Set<Seq<char>>, k: int)
    requires
        0 <= k < live_records(records, dead).len(),
    ensures
        !dead.contains(live_records(records, dead)[k].interaction_id),
    decreases records.len(),
{
    reveal(Seq::filter);
    let keep = |r: LinkRecordModel| !dead.contains(r.interaction_id);
    if records.len() > 0 {
        let p = records.drop_last();
        if k < live_records(p, dead).len() {
            lemma_live_record(p, dead, k);
        }
    }
}

} // verus!
