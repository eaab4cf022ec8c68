//! Building the tree that leaves for a destination: what the baseline keeps,
//! what the store adds, and the index that follows from both.

use crate::derivation;
use crate::derivation::{
    is_automatic_link_type, is_safe_commit_sha, suppressed_events,
    validate_closed_derivation_graph,
};
use crate::digest;
use crate::digest::{any_hex, put_bytes};
use crate::fault::SyncError;
use crate::import;
use crate::import::{
    Snapshot, TreeModel, projected_legacy_sources, read_format, texts_of_ids,
    validate_v5_reserved_namespaces,
};
use crate::layout;
use crate::layout::{lookup_leaf, node_at, place_leaf, place_node, root_at};
use crate::models;
use crate::models::{
    ArtifactLink, DerivationEvent, EventModel, InteractionId, LinkModel, RangeEvidence,
    RangeModel, Tombstone, TombstoneModel,
};
use crate::outbound;
use crate::outbound::{validate_final_link_bytes, validate_final_node_bytes};
use crate::prune;
use crate::prune::prune;
use crate::text::{bytes_equal, glue, text_equal};
use crate::textset::TextSet;
use crate::tree;
use crate::tree::{
    BlobModel, EntryKind, EntryModel, Leaf, LeafModel, LinkRecordModel, MAX_BY_COMMIT_POINTERS,
    MAX_SYNC_TOTAL_BYTES, Namespace, NamespaceModel, NodeBlob, NodeRef, ObjectModel, Shard,
    SyncLinkRecord, TreeEntry, TreeObject, add_sync_bytes, collect_derivation_events,
    collect_interaction_blobs, collect_link_records, index_entry, link_record_equal,
    shard_prefix, validate_by_commit_structure, validate_tombstone,
};
use vstd::hash_set::StringHashSet;
use vstd::prelude::*;
use vstd::string::*;

verus! {

/// The endpoints found so far: the interactions that have a node, and the
/// commits they are recorded under, each pair once and in the order found.
#[verifier::ext_equal]
pub struct EndpointScan {
    pub nodes: Set<Seq<char>>,
    pub paths: Set<Seq<char>>,
    pub list: Seq<(Seq<char>, Seq<char>)>,
}

/// The scan with one more endpoint.
pub open spec fn with_endpoint(s: EndpointScan, commit: Seq<char>, id: Seq<char>) -> EndpointScan {
    let path = tree::index_path(commit, id);
    if s.paths.contains(path) {
        s
    } else {
        EndpointScan { nodes: s.nodes, paths: s.paths.insert(path), list: s.list.push((commit, id)) }
    }
}

/// The endpoints of the links of a node, from position `j` on.
pub open spec fn scan_node_links(id: Seq<char>, links: Seq<LinkModel>, j: int, s: EndpointScan) -> Result<
    EndpointScan,
    SyncError,
>
    decreases links.len() - j,
{
    if j < 0 || j >= links.len() {
        Ok(s)
    } else if links[j].interaction_id.text() != id || !derivation::is_commit_sha(
        links[j].git_commit_hash,
    ) {
        Err(SyncError::InvalidProjectedLink)
    } else {
        scan_node_links(id, links, j + 1, with_endpoint(s, links[j].git_commit_hash, id))
    }
}

/// The endpoints of the nodes from position `k` on.
pub open spec fn scan_refs(refs: Seq<(Seq<char>, BlobModel)>, k: int, s: EndpointScan) -> Result<
    EndpointScan,
    SyncError,
>
    decreases refs.len() - k,
{
    if k < 0 || k >= refs.len() {
        Ok(s)
    } else {
        match refs[k].1.node {
            None => Err(SyncError::Malformed),
            Some(n) => {
                let id = n.interaction.id.text();
                if id != refs[k].0 {
                    Err(SyncError::NodeIdentityMismatch)
                } else {
                    let seen = EndpointScan { nodes: s.nodes.insert(id), ..s };
                    match scan_node_links(id, n.artifact_links, 0, seen) {
                        Err(f) => Err(f),
                        Ok(next) => scan_refs(refs, k + 1, next),
                    }
                }
            },
        }
    }
}

/// The endpoints of the link records from position `k` on.
pub open spec fn scan_records(records: Seq<LinkRecordModel>, k: int, s: EndpointScan) -> EndpointScan
    decreases records.len() - k,
{
    if k < 0 || k >= records.len() {
        s
    } else if s.nodes.contains(records[k].interaction_id) {
        scan_records(
            records,
            k + 1,
            with_endpoint(s, records[k].git_commit_hash, records[k].interaction_id),
        )
    } else {
        scan_records(records, k + 1, s)
    }
}

/// The endpoints of the events from position `k` on.
pub open spec fn scan_events(events: Seq<EventModel>, k: int, s: EndpointScan) -> Result<
    EndpointScan,
    SyncError,
>
    decreases events.len() - k,
{
    if k < 0 || k >= events.len() {
        Ok(s)
    } else if !s.nodes.contains(events[k].interaction_id.text()) {
        Err(SyncError::EventWithoutNode)
    } else {
        scan_events(
            events,
            k + 1,
            with_endpoint(s, events[k].target_commit, events[k].interaction_id.text()),
        )
    }
}

/// Nothing found yet.
pub open spec fn no_endpoints() -> EndpointScan {
    EndpointScan { nodes: Set::empty(), paths: Set::empty(), list: Seq::empty() }
}

/// The endpoints of a tree.
pub open spec fn endpoints(t: TreeModel) -> Result<EndpointScan, SyncError> {
    match tree::node_blobs(t.entries, 2, 0, Seq::empty()) {
        Err(f) => Err(f),
        Ok(refs) => match scan_refs(refs, 0, no_endpoints()) {
            Err(f) => Err(f),
            Ok(s1) => match tree::read_links(t.links, 0, MAX_SYNC_TOTAL_BYTES as int) {
                Err(f) => Err(f),
                Ok((records, total)) => match tree::read_events(
                    t.events,
                    total,
                    MAX_SYNC_TOTAL_BYTES as int,
                ) {
                    Err(f) => Err(f),
                    Ok(scan) => match scan_events(scan.out, 0, scan_records(records, 0, s1)) {
                        Err(f) => Err(f),
                        Ok(s2) => if s2.paths.len() > MAX_BY_COMMIT_POINTERS {
                            Err(SyncError::TooManyEndpoints)
                        } else {
                            Ok(s2)
                        },
                    },
                },
            },
        },
    }
}

/// A commit and an interaction recorded under it.
#[derive(Debug)]
pub struct Endpoint {
    pub commit: String,
    pub id: String,
}

/// The contents of endpoints.
pub open spec fn endpoint_models(s: Seq<Endpoint>) -> Seq<(Seq<char>, Seq<char>)> {
    s.map_values(|e: Endpoint| (e.commit@, e.id@))
}

/// The endpoints of a tree.
pub struct Endpoints {
    pub nodes: TextSet,
    pub paths: TextSet,
    pub list: Vec<Endpoint>,
}

impl View for Endpoints {
    type V = EndpointScan;

    open spec fn view(&self) -> EndpointScan {
        EndpointScan {
            nodes: self.nodes@,
            paths: self.paths@,
            list: endpoint_models(self.list@),
        }
    }
}

impl Endpoints {
    pub open spec fn wf(self) -> bool {
        self.nodes.wf() && self.paths.wf()
    }

    fn add_pair(&mut self, commit: &str, id: &str)
        requires
            old(self).wf(),
        ensures
            final(self).wf(),
            final(self)@ == with_endpoint(old(self)@, commit@, id@),
    {
        let ghost before = self@;
        let path = index_entry(commit, id);
        if self.paths.insert(path) {
            self.list.push(Endpoint { commit: commit.to_owned(), id: id.to_owned() });
            assert(endpoint_models(self.list@) =~= before.list.push((commit@, id@)));
        } else {
            assert(before.paths.insert(path@) =~= before.paths);
        }
    }
}

fn add_link_pairs(id: &str, links: &Vec<ArtifactLink>, out: &mut Endpoints) -> (r: Result<
    (),
    SyncError,
>)
    requires
        old(out).wf(),
    ensures
        final(out).wf(),
        match scan_node_links(id@, models::link_models(links@), 0, old(out)@) {
            Ok(s) => r is Ok && final(out)@ == s,
            Err(f) => r matches Err(e) && e == f,
        },
{
    let ghost ls = models::link_models(links@);
    let mut j: usize = 0;
    while j < links.len()
        invariant
            j <= links.len(),
            out.wf(),
            ls == models::link_models(links@),
            scan_node_links(id@, ls, 0, old(out)@) == scan_node_links(id@, ls, j as int, out@),
        decreases links.len() - j,
    {
        let link = &links[j];
        assert(ls[j as int] == link@);
        if !text_equal(link.interaction_id.as_str().as_str(), id) || !is_safe_commit_sha(
            link.git_commit_hash.as_str(),
        ) {
            return Err(SyncError::InvalidProjectedLink);
        }
        out.add_pair(link.git_commit_hash.as_str(), id);
        j += 1;
    }
    Ok(())
}

/// The commits and interactions that a tree's nodes, link records and events
/// speak of. Every event's interaction has to have a node.
pub fn projected_endpoints(snap: &Snapshot) -> (r: Result<Endpoints, SyncError>)
    ensures
        match endpoints(snap@) {
            Ok(s) => r matches Ok(v) && v.wf() && v@ == s,
            Err(f) => r matches Err(e) && e == f,
        },
{
    let mut refs: Vec<NodeRef> = Vec::new();
    assert(tree::node_refs(refs@) =~= Seq::empty());
    match collect_interaction_blobs(&snap.entries, 2, &mut refs) {
        Ok(_) => {},
        Err(f) => {
            return Err(f);
        },
    }
    let ghost rs = tree::node_refs(refs@);
    let mut out = Endpoints { nodes: TextSet::new(), paths: TextSet::new(), list: Vec::new() };
    assert(endpoint_models(out.list@) =~= Seq::empty());
    assert(out@ =~= no_endpoints());
    let mut k: usize = 0;
    while k < refs.len()
        invariant
            k <= refs.len(),
            out.wf(),
            rs == tree::node_refs(refs@),
            tree::node_blobs(snap@.entries, 2, 0, Seq::empty()) == Ok::<
                Seq<(Seq<char>, BlobModel)>,
                SyncError,
            >(rs),
            scan_refs(rs, 0, no_endpoints()) == scan_refs(rs, k as int, out@),
        decreases refs.len() - k,
    {
        assert(rs[k as int] == (refs@[k as int].id@, refs@[k as int].blob@));
        let node = match &refs[k].blob.node {
            Some(node) => node,
            None => {
                return Err(SyncError::Malformed);
            },
        };
        let id = node.interaction.id.as_str();
        if !text_equal(id.as_str(), refs[k].id.as_str()) {
            return Err(SyncError::NodeIdentityMismatch);
        }
        let ghost before = out@;
        out.nodes.insert(id.clone());
        assert(out@ =~= (EndpointScan { nodes: before.nodes.insert(id@), ..before }));
        match add_link_pairs(id.as_str(), &node.artifact_links, &mut out) {
            Ok(_) => {},
            Err(f) => {
                return Err(f);
            },
        }
        k += 1;
    }
    let mut decoded: usize = 0;
    let records = match collect_link_records(&snap.links, &mut decoded, MAX_SYNC_TOTAL_BYTES) {
        Ok(records) => records,
        Err(f) => {
            return Err(f);
        },
    };
    let ghost recs = tree::link_record_models(records@);
    let events = match collect_derivation_events(
        &snap.events,
        &mut decoded,
        MAX_SYNC_TOTAL_BYTES,
    ) {
        Ok(events) => events,
        Err(f) => {
            return Err(f);
        },
    };
    let ghost evs = derivation::models(events@);
    let ghost s1 = out@;
    let mut k: usize = 0;
    while k < records.len()
        invariant
            k <= records.len(),
            out.wf(),
            recs == tree::link_record_models(records@),
            scan_records(recs, 0, s1) == scan_records(recs, k as int, out@),
        decreases records.len() - k,
    {
        assert(recs[k as int] == records@[k as int]@);
        if out.nodes.contains(records[k].interaction_id.as_str()) {
            out.add_pair(
                records[k].git_commit_hash.as_str(),
                records[k].interaction_id.as_str(),
            );
        }
        k += 1;
    }
    let ghost s2 = out@;
    let mut k: usize = 0;
    while k < events.len()
        invariant
            k <= events.len(),
            out.wf(),
            evs == derivation::models(events@),
            endpoints(snap@) == (match scan_events(evs, 0, s2) {
                Err(f) => Err(f),
                Ok(s) => if s.paths.len() > MAX_BY_COMMIT_POINTERS {
                    Err(SyncError::TooManyEndpoints)
                } else {
                    Ok(s)
                },
            }),
            scan_events(evs, 0, s2) == scan_events(evs, k as int, out@),
        decreases events.len() - k,
    {
        assert(evs[k as int] == events@[k as int]@);
        let id = events[k].interaction_id.as_str();
        if !out.nodes.contains(id.as_str()) {
            return Err(SyncError::EventWithoutNode);
        }
        out.add_pair(events[k].target_commit.as_str(), id.as_str());
        k += 1;
    }
    if out.paths.len() > MAX_BY_COMMIT_POINTERS {
        return Err(SyncError::TooManyEndpoints);
    }
    Ok(out)
}

/// A pointer of the index.
pub open spec fn pointer(id: Seq<char>) -> LeafModel<()> {
    LeafModel { name: id, kind: EntryKind::Blob, body: Seq::empty(), record: Some(()) }
}

/// The index of the first `n` endpoints, absent where there are none.
pub open spec fn indexed(list: Seq<(Seq<char>, Seq<char>)>, n: nat) -> Option<NamespaceModel<()>>
    decreases n,
{
    if n == 0 || n > list.len() {
        None
    } else {
        Some(
            layout::placed(
                indexed(list, (n - 1) as nat),
                list[n - 1].0,
                pointer(list[n - 1].1),
            ),
        )
    }
}

/// Builds the index: under each commit an empty entry for each interaction.
pub fn build_by_commit_tree(list: &Vec<Endpoint>) -> (r: Option<Namespace<()>>)
    ensures
        tree::opt_namespace(r) == indexed(endpoint_models(list@), list@.len()),
{
    let ghost ls = endpoint_models(list@);
    let mut out: Option<Namespace<()>> = None;
    let mut k: usize = 0;
    while k < list.len()
        invariant
            k <= list.len(),
            ls == endpoint_models(list@),
            tree::opt_namespace(out) == indexed(ls, k as nat),
        decreases list.len() - k,
    {
        assert(ls[k as int] == (list@[k as int].commit@, list@[k as int].id@));
        let leaf = Leaf {
            name: list[k].id.clone(),
            kind: EntryKind::Blob,
            body: Vec::new(),
            record: Some(()),
        };
        assert(leaf@ =~= pointer(list@[k as int].id@));
        out = Some(place_leaf(out, list[k].commit.clone(), leaf));
        k += 1;
    }
    out
}

/// Checks that the events of a tree form a closed graph over its direct links.
pub open spec fn tree_graph_fault(t: TreeModel) -> Option<SyncError> {
    match tree::read_events(t.events, 0, MAX_SYNC_TOTAL_BYTES as int) {
        Err(f) => Some(f),
        Ok(scan) => match import::legacy_sources(t) {
            Err(f) => Some(f),
            Ok(legacy) => derivation::graph_fault(scan.out, legacy),
        },
    }
}

/// Checks that the events of a tree form a closed graph over its direct links.
pub fn validate_tree_derivation_graph(snap: &Snapshot) -> (r: Result<(), SyncError>)
    ensures
        match tree_graph_fault(snap@) {
            None => r is Ok,
            Some(f) => r matches Err(e) && e == f,
        },
{
    let mut decoded: usize = 0;
    match collect_derivation_events(&snap.events, &mut decoded, MAX_SYNC_TOTAL_BYTES) {
        Err(f) => Err(f),
        Ok(events) => match projected_legacy_sources(snap) {
            Err(f) => Err(f),
            Ok(legacy) => validate_closed_derivation_graph(&events, &legacy),
        },
    }
}

/// A record of the store and the bytes it serializes to.
pub struct LocalRecord<T> {
    pub record: T,
    pub body: Vec<u8>,
}

/// The contents of [`LocalRecord`].
#[verifier::ext_equal]
pub struct LocalModel<M> {
    pub record: M,
    pub body: Seq<u8>,
}

impl<T: View> View for LocalRecord<T> {
    type V = LocalModel<T::V>;

    open spec fn view(&self) -> LocalModel<T::V> {
        LocalModel { record: self.record@, body: self.body@ }
    }
}

/// The contents of local records.
pub open spec fn local_models<T: View>(s: Seq<LocalRecord<T>>) -> Seq<LocalModel<T::V>> {
    s.map_values(|x: LocalRecord<T>| x@)
}

/// An interaction that is to be in the tree, and its bytes where the store has
/// been asked for them.
pub struct LocalNode {
    pub id: InteractionId,
    pub blob: Option<NodeBlob>,
}

/// The contents of [`LocalNode`].
#[verifier::ext_equal]
pub struct LocalNodeModel {
    pub id: InteractionId,
    pub blob: Option<BlobModel>,
}

impl View for LocalNode {
    type V = LocalNodeModel;

    open spec fn view(&self) -> LocalNodeModel {
        LocalNodeModel {
            id: self.id,
            blob: match self.blob {
                Some(b) => Some(b@),
                None => None,
            },
        }
    }
}

/// The contents of local interactions.
pub open spec fn local_nodes(s: Seq<LocalNode>) -> Seq<LocalNodeModel> {
    s.map_values(|x: LocalNode| x@)
}

/// A link of the store: the record it asks for, and the scrubbed record that
/// was serialized for it.
pub struct LocalLink {
    pub intended: SyncLinkRecord,
    pub body: Vec<u8>,
    pub record: Option<SyncLinkRecord>,
}

/// The contents of [`LocalLink`].
#[verifier::ext_equal]
pub struct LocalLinkModel {
    pub intended: LinkRecordModel,
    pub body: Seq<u8>,
    pub record: Option<LinkRecordModel>,
}

impl View for LocalLink {
    type V = LocalLinkModel;

    open spec fn view(&self) -> LocalLinkModel {
        LocalLinkModel {
            intended: self.intended@,
            body: self.body@,
            record: outbound::opt_record(self.record),
        }
    }
}

/// The contents of local links.
pub open spec fn local_links(s: Seq<LocalLink>) -> Seq<LocalLinkModel> {
    s.map_values(|x: LocalLink| x@)
}

/// A tree under construction, and the bytes added to it so far.
#[verifier::ext_equal]
pub struct Growth {
    pub tree: TreeModel,
    pub emitted: int,
}

/// The file that holds an interaction.
pub open spec fn node_file(id: InteractionId) -> Seq<char> {
    id.text() + ".json"@
}

/// Where an interaction already stands: flat at the root or in its shard.
pub open spec fn present_node(entries: Seq<EntryModel>, id: InteractionId) -> Option<ObjectModel> {
    match layout::root_object(entries, node_file(id)) {
        Some(o) => Some(o),
        None => layout::sharded_node(entries, id.text().take(2), node_file(id)),
    }
}

/// An entry that already stands for an interaction and may pass.
pub open spec fn present_may_pass(o: ObjectModel, id: InteractionId) -> bool {
    &&& o matches ObjectModel::Blob(b)
    &&& b.node matches Some(n)
    &&& n.interaction.id.text() == id.text()
    &&& outbound::node_may_pass(b)
}

/// An entry that already stands for an interaction and may fail so.
pub open spec fn present_may_fail(o: ObjectModel, id: InteractionId, f: SyncError) -> bool {
    match o {
        ObjectModel::Blob(b) => match b.node {
            None => f == SyncError::Malformed,
            Some(n) => if n.interaction.id.text() != id.text() {
                f == SyncError::ImmutableNodeMismatch
            } else {
                outbound::node_may_fail(b, f)
            },
        },
        _ => f == SyncError::Malformed,
    }
}

/// What adding the interactions from position `k` on may result in. Published
/// interactions are immutable: one that is there is checked, never rewritten.
/// Suppressed interactions are passed over.
pub open spec fn may_add_nodes(
    g: Growth,
    nodes: Seq<LocalNodeModel>,
    dead: Set<Seq<char>>,
    k: int,
    r: Result<Growth, SyncError>,
) -> bool
    decreases nodes.len() - k,
{
    if k < 0 || k >= nodes.len() {
        r == Ok::<Growth, SyncError>(g)
    } else {
        let id = nodes[k].id;
        if dead.contains(id.text()) {
            may_add_nodes(g, nodes, dead, k + 1, r)
        } else {
            match present_node(g.tree.entries, id) {
                Some(o) => {
                    ||| r matches Err(f) && present_may_fail(o, id, f)
                    ||| present_may_pass(o, id) && may_add_nodes(g, nodes, dead, k + 1, r)
                },
                None => match nodes[k].blob {
                    None => r == Err::<Growth, SyncError>(SyncError::MissingInteractionRow),
                    Some(b) => match tree::charged(
                        g.emitted,
                        b.body.len() as int,
                        MAX_SYNC_TOTAL_BYTES as int,
                    ) {
                        Err(f) => r == Err::<Growth, SyncError>(f),
                        Ok(emitted) => {
                            ||| r matches Err(f) && outbound::node_may_fail(b, f)
                            ||| outbound::node_may_pass(b) && may_add_nodes(
                                Growth {
                                    tree: TreeModel {
                                        entries: layout::placed_node(
                                            g.tree.entries,
                                            id.text().take(2),
                                            node_file(id),
                                            b,
                                        ),
                                        ..g.tree
                                    },
                                    emitted,
                                },
                                nodes,
                                dead,
                                k + 1,
                                r,
                            )
                        },
                    },
                },
            }
        }
    }
}

/// A tree under construction.
pub struct Growing {
    pub tree: Snapshot,
    pub emitted: usize,
}

impl View for Growing {
    type V = Growth;

    open spec fn view(&self) -> Growth {
        Growth { tree: self.tree@, emitted: self.emitted as int }
    }
}

/// The characters that name the shard of an interaction are ASCII.
pub proof fn lemma_uuid_shard(v: u128)
    ensures
        models::uuid_text(v).len() == 36,
        vstd::utf8::is_ascii_chars(models::uuid_text(v).take(2)),
{
    let h = digest::hex_text(models::uuid_bytes(v));
    let t = models::uuid_text(v);
    assert(t.take(2) =~= h.take(2));
    let b = models::uuid_bytes(v)[0];
    assert(h[0] == digest::hex_digit(b as int / 16));
    assert(h[1] == digest::hex_digit(b as int % 16));
    assert(t.take(2)[0] == h[0]);
    assert(t.take(2)[1] == h[1]);
}

pub fn file_of(id: &InteractionId) -> (r: String)
    ensures
        r@ == node_file(*id),
{
    glue(id.as_str().as_str(), ".json")
}

pub fn shard_of(id: &InteractionId) -> (r: String)
    ensures
        r@ == id.text().take(2),
{
    let text = id.as_str();
    proof {
        lemma_uuid_shard(id.value);
    }
    shard_prefix(text.as_str())
}

/// Where an interaction already stands in the tree.
fn locate_node<'a>(entries: &'a Vec<TreeEntry>, id: &InteractionId) -> (r: Option<&'a TreeObject>)
    ensures
        match r {
            Some(o) => present_node(tree::entry_models(entries@), *id) == Some(
                layout::object_model(*o),
            ),
            None => present_node(tree::entry_models(entries@), *id) is None,
        },
{
    let file = file_of(id);
    match root_at(entries, file.as_str()) {
        Some(o) => Some(o),
        None => node_at(entries, shard_of(id).as_str(), file.as_str()),
    }
}

/// Whether the store has to be asked for the bytes of an interaction.
pub fn needs_node(snap: &Snapshot, id: &InteractionId) -> (r: bool)
    ensures
        r == (present_node(snap@.entries, *id) is None),
{
    locate_node(&snap.entries, id).is_none()
}

/// Checks an interaction that is already in the tree.
fn verify_existing_node(o: &TreeObject, id: &InteractionId) -> (r: Result<(), SyncError>)
    ensures
        match r {
            Ok(_) => present_may_pass(layout::object_model(*o), *id),
            Err(f) => present_may_fail(layout::object_model(*o), *id, f),
        },
{
    match o {
        TreeObject::Blob(blob) => {
            let node = match &blob.node {
                Some(node) => node,
                None => {
                    return Err(SyncError::Malformed);
                },
            };
            if !text_equal(node.interaction.id.as_str().as_str(), id.as_str().as_str()) {
                return Err(SyncError::ImmutableNodeMismatch);
            }
            validate_final_node_bytes(blob)
        },
        _ => Err(SyncError::Malformed),
    }
}

fn copy_blob(b: &NodeBlob) -> (r: NodeBlob)
    ensures
        r@ == b@,
{
    let mut body: Vec<u8> = Vec::new();
    put_bytes(&mut body, b.body.as_slice());
    assert(body@ =~= b.body@);
    NodeBlob {
        body,
        node: match &b.node {
            Some(n) => Some(n.clone()),
            None => None,
        },
    }
}

fn copy_body(b: &Vec<u8>) -> (r: Vec<u8>)
    ensures
        r@ == b@,
{
    let mut body: Vec<u8> = Vec::new();
    put_bytes(&mut body, b.as_slice());
    assert(body@ =~= b@);
    body
}

fn add_nodes(g: &mut Growing, nodes: &Vec<LocalNode>, dead: &TextSet) -> (r: Result<(), SyncError>)
    requires
        dead.wf(),
    ensures
        match r {
            Ok(_) => may_add_nodes(old(g)@, local_nodes(nodes@), dead@, 0, Ok(final(g)@)),
            Err(f) => may_add_nodes(old(g)@, local_nodes(nodes@), dead@, 0, Err(f)),
        },
{
    let ghost ns = local_nodes(nodes@);
    let ghost start = g@;
    let mut k: usize = 0;
    while k < nodes.len()
        invariant
            k <= nodes.len(),
            dead.wf(),
            ns == local_nodes(nodes@),
            start == old(g)@,
            forall|r: Result<Growth, SyncError>| #[trigger]
                may_add_nodes(g@, ns, dead@, k as int, r) ==> may_add_nodes(start, ns, dead@, 0, r),
        decreases nodes.len() - k,
    {
        let node = &nodes[k];
        assert(ns[k as int] == node@);
        let ghost before = g@;
        let dead_one = dead.contains(node.id.as_str().as_str());
        if !dead_one {
            let verdict: Option<Result<(), SyncError>> = match locate_node(&g.tree.entries, &node.id) {
                Some(o) => Some(verify_existing_node(o, &node.id)),
                None => None,
            };
            match verdict {
                Some(v) => match v {
                    Ok(_) => {},
                    Err(f) => {
                        assert(may_add_nodes(before, ns, dead@, k as int, Err(f)));
                        return Err(f);
                    },
                },
                None => {
                    let blob = match &node.blob {
                        Some(blob) => blob,
                        None => {
                            assert(may_add_nodes(
                                before,
                                ns,
                                dead@,
                                k as int,
                                Err(SyncError::MissingInteractionRow),
                            ));
                            return Err(SyncError::MissingInteractionRow);
                        },
                    };
                    let mut emitted: usize = g.emitted;
                    match add_sync_bytes(&mut emitted, blob.body.len(), MAX_SYNC_TOTAL_BYTES) {
                        Ok(_) => {},
                        Err(f) => {
                            assert(may_add_nodes(before, ns, dead@, k as int, Err(f)));
                            return Err(f);
                        },
                    }
                    match validate_final_node_bytes(blob) {
                        Ok(_) => {},
                        Err(f) => {
                            assert(may_add_nodes(before, ns, dead@, k as int, Err(f)));
                            return Err(f);
                        },
                    }
                    g.emitted = emitted;
                    place_node(
                        &mut g.tree.entries,
                        shard_of(&node.id).as_str(),
                        file_of(&node.id).as_str(),
                        copy_blob(blob),
                    );
                    assert(g@.tree =~= (TreeModel {
                        entries: layout::placed_node(
                            before.tree.entries,
                            node.id.text().take(2),
                            node_file(node.id),
                            blob@,
                        ),
                        ..before.tree
                    }));
                },
            }
        }
        assert forall|r: Result<Growth, SyncError>| #[trigger]
            may_add_nodes(g@, ns, dead@, k + 1, r) implies may_add_nodes(start, ns, dead@, 0, r) by {
            assert(may_add_nodes(before, ns, dead@, k as int, r));
        }
        k += 1;
    }
    assert(ns.len() == nodes@.len());
    assert(may_add_nodes(g@, ns, dead@, k as int, Ok(g@)));
    Ok(())
}

/// Adding the tombstones from position `k` on. A tombstone that is there is
/// immutable.
pub open spec fn with_tombstones(g: Growth, list: Seq<LocalModel<TombstoneModel>>, k: int) -> Result<
    Growth,
    SyncError,
>
    decreases list.len() - k,
{
    if k < 0 || k >= list.len() {
        Ok(g)
    } else {
        let t = list[k].record;
        let shard = t.interaction_id.text().take(2);
        let file = node_file(t.interaction_id);
        if !tree::valid_tombstone(t) {
            Err(SyncError::InvalidTombstone)
        } else {
            match layout::lookup(g.tree.tombstones, shard, file) {
                Some(leaf) => if leaf.kind != EntryKind::Blob || leaf.record is None {
                    Err(SyncError::Malformed)
                } else if !tree::valid_tombstone(leaf.record->0) {
                    Err(SyncError::InvalidTombstone)
                } else if leaf.record->0 != t {
                    Err(SyncError::TombstoneConflict)
                } else {
                    with_tombstones(g, list, k + 1)
                },
                None => match tree::charged(
                    g.emitted,
                    list[k].body.len() as int,
                    MAX_SYNC_TOTAL_BYTES as int,
                ) {
                    Err(f) => Err(f),
                    Ok(emitted) => with_tombstones(
                        Growth {
                            tree: TreeModel {
                                tombstones: Some(
                                    layout::placed(
                                        g.tree.tombstones,
                                        shard,
                                        LeafModel {
                                            name: file,
                                            kind: EntryKind::Blob,
                                            body: list[k].body,
                                            record: Some(t),
                                        },
                                    ),
                                ),
                                ..g.tree
                            },
                            emitted,
                        },
                        list,
                        k + 1,
                    ),
                },
            }
        }
    }
}

fn add_tombstones(g: &mut Growing, list: &Vec<LocalRecord<Tombstone>>) -> (r: Result<(), SyncError>)
    ensures
        match with_tombstones(old(g)@, local_models(list@), 0) {
            Ok(n) => r is Ok && final(g)@ == n,
            Err(f) => r matches Err(e) && e == f,
        },
{
    let ghost ls = local_models(list@);
    let mut k: usize = 0;
    while k < list.len()
        invariant
            k <= list.len(),
            ls == local_models(list@),
            with_tombstones(old(g)@, ls, 0) == with_tombstones(g@, ls, k as int),
        decreases list.len() - k,
    {
        let item = &list[k];
        assert(ls[k as int] == item@);
        let t = &item.record;
        match validate_tombstone(t) {
            Ok(_) => {},
            Err(f) => {
                return Err(f);
            },
        }
        let shard = shard_of(&t.interaction_id);
        let file = file_of(&t.interaction_id);
        let ghost before = g@;
        let verdict: Option<Result<(), SyncError>> = match lookup_leaf(
            &g.tree.tombstones,
            shard.as_str(),
            file.as_str(),
        ) {
            Some(leaf) => Some(
                if leaf.kind != EntryKind::Blob {
                    Err(SyncError::Malformed)
                } else {
                    match &leaf.record {
                        None => Err(SyncError::Malformed),
                        Some(prior) => match validate_tombstone(prior) {
                            Err(f) => Err(f),
                            Ok(_) => if prior.same(t) {
                                Ok(())
                            } else {
                                Err(SyncError::TombstoneConflict)
                            },
                        },
                    }
                },
            ),
            None => None,
        };
        match verdict {
            Some(v) => match v {
                Ok(_) => {},
                Err(f) => {
                    return Err(f);
                },
            },
            None => {
                let mut emitted: usize = g.emitted;
                match add_sync_bytes(&mut emitted, item.body.len(), MAX_SYNC_TOTAL_BYTES) {
                    Ok(_) => {},
                    Err(f) => {
                        return Err(f);
                    },
                }
                g.emitted = emitted;
                let leaf = Leaf {
                    name: file,
                    kind: EntryKind::Blob,
                    body: copy_body(&item.body),
                    record: Some(t.clone()),
                };
                let ns = g.tree.tombstones.take();
                g.tree.tombstones = Some(place_leaf(ns, shard, leaf));
                assert(g@.tree =~= (TreeModel {
                    tombstones: Some(layout::placed(before.tree.tombstones, shard@, leaf@)),
                    ..before.tree
                }));
            },
        }
        k += 1;
    }
    assert(ls.len() == list@.len());
    Ok(())
}

/// What adding the automatic links from position `k` on may result in. Other
/// links stay with the interactions they were captured with.
pub open spec fn may_add_links(
    g: Growth,
    links: Seq<LocalLinkModel>,
    k: int,
    r: Result<Growth, SyncError>,
) -> bool
    decreases links.len() - k,
{
    if k < 0 || k >= links.len() {
        r == Ok::<Growth, SyncError>(g)
    } else {
        let want = links[k].intended;
        let file = want.git_commit_hash + ".json"@;
        if !derivation::automatic_link_type(want.link_type) || !derivation::is_commit_sha(
            want.git_commit_hash,
        ) {
            may_add_links(g, links, k + 1, r)
        } else {
            match layout::lookup(g.tree.links, want.interaction_id, file) {
                Some(leaf) => {
                    ||| leaf.kind != EntryKind::Blob && r == Err::<Growth, SyncError>(
                        SyncError::Malformed,
                    )
                    ||| leaf.kind == EntryKind::Blob && (r matches Err(f)
                        && outbound::link_record_may_fail(leaf.body, leaf.record, f))
                    ||| leaf.kind == EntryKind::Blob && outbound::link_may_pass(
                        leaf.body,
                        leaf.record,
                    ) && if leaf.record == Some(want) {
                        may_add_links(g, links, k + 1, r)
                    } else {
                        r == Err::<Growth, SyncError>(SyncError::LinkConflict)
                    }
                },
                None => match tree::charged(
                    g.emitted,
                    links[k].body.len() as int,
                    MAX_SYNC_TOTAL_BYTES as int,
                ) {
                    Err(f) => r == Err::<Growth, SyncError>(f),
                    Ok(emitted) => {
                        ||| r matches Err(f) && outbound::link_record_may_fail(
                            links[k].body,
                            links[k].record,
                            f,
                        )
                        ||| outbound::link_may_pass(links[k].body, links[k].record)
                            && may_add_links(
                            Growth {
                                tree: TreeModel {
                                    links: Some(
                                        layout::placed(
                                            g.tree.links,
                                            want.interaction_id,
                                            LeafModel {
                                                name: file,
                                                kind: EntryKind::Blob,
                                                body: links[k].body,
                                                record: links[k].record,
                                            },
                                        ),
                                    ),
                                    ..g.tree
                                },
                                emitted,
                            },
                            links,
                            k + 1,
                            r,
                        )
                    },
                },
            }
        }
    }
}

/// Whether the store has to be asked for the bytes of a link record.
pub fn needs_link(snap: &Snapshot, id: &InteractionId, commit: &str) -> (r: bool)
    ensures
        r == (layout::lookup(snap@.links, id.text(), commit@ + ".json"@) is None),
{
    lookup_leaf(&snap.links, id.as_str().as_str(), glue(commit, ".json").as_str()).is_none()
}

fn copy_record(o: &Option<SyncLinkRecord>) -> (r: Option<SyncLinkRecord>)
    ensures
        outbound::opt_record(r) == outbound::opt_record(*o),
{
    match o {
        Some(x) => Some(x.clone()),
        None => None,
    }
}

/// Checks a link record that is already in the tree.
fn verify_existing_link(leaf: &Leaf<SyncLinkRecord>, want: &SyncLinkRecord) -> (r: Result<
    (),
    SyncError,
>)
    ensures
        match r {
            Ok(_) => leaf@.kind == EntryKind::Blob && outbound::link_may_pass(
                leaf@.body,
                leaf@.record,
            ) && leaf@.record == Some(want@),
            Err(f) => {
                ||| leaf@.kind != EntryKind::Blob && f == SyncError::Malformed
                ||| leaf@.kind == EntryKind::Blob && outbound::link_record_may_fail(
                    leaf@.body,
                    leaf@.record,
                    f,
                )
                ||| leaf@.kind == EntryKind::Blob && outbound::link_may_pass(
                    leaf@.body,
                    leaf@.record,
                ) && leaf@.record != Some(want@) && f == SyncError::LinkConflict
            },
        },
{
    if leaf.kind != EntryKind::Blob {
        return Err(SyncError::Malformed);
    }
    assert(outbound::opt_record(leaf.record) == leaf@.record);
    match validate_final_link_bytes(&leaf.body, &leaf.record) {
        Ok(_) => {},
        Err(f) => {
            return Err(f);
        },
    }
    match &leaf.record {
        Some(existing) => if link_record_equal(existing, want) {
            Ok(())
        } else {
            Err(SyncError::LinkConflict)
        },
        None => Err(SyncError::LinkConflict),
    }
}

fn add_links(g: &mut Growing, links: &Vec<LocalLink>) -> (r: Result<(), SyncError>)
    ensures
        match r {
            Ok(_) => may_add_links(old(g)@, local_links(links@), 0, Ok(final(g)@)),
            Err(f) => may_add_links(old(g)@, local_links(links@), 0, Err(f)),
        },
{
    let ghost ls = local_links(links@);
    let ghost start = g@;
    let mut k: usize = 0;
    while k < links.len()
        invariant
            k <= links.len(),
            ls == local_links(links@),
            start == old(g)@,
            forall|r: Result<Growth, SyncError>| #[trigger]
                may_add_links(g@, ls, k as int, r) ==> may_add_links(start, ls, 0, r),
        decreases links.len() - k,
    {
        let link = &links[k];
        assert(ls[k as int] == link@);
        let ghost before = g@;
        let want = &link.intended;
        if is_automatic_link_type(want.link_type.as_str()) && is_safe_commit_sha(
            want.git_commit_hash.as_str(),
        ) {
            let file = glue(want.git_commit_hash.as_str(), ".json");
            let verdict: Option<Result<(), SyncError>> = match lookup_leaf(
                &g.tree.links,
                want.interaction_id.as_str(),
                file.as_str(),
            ) {
                Some(leaf) => Some(verify_existing_link(leaf, want)),
                None => None,
            };
            match verdict {
                Some(v) => match v {
                    Ok(_) => {},
                    Err(f) => {
                        assert(may_add_links(before, ls, k as int, Err(f)));
                        return Err(f);
                    },
                },
                None => {
                    let mut emitted: usize = g.emitted;
                    match add_sync_bytes(&mut emitted, link.body.len(), MAX_SYNC_TOTAL_BYTES) {
                        Ok(_) => {},
                        Err(f) => {
                            assert(may_add_links(before, ls, k as int, Err(f)));
                            return Err(f);
                        },
                    }
                    match validate_final_link_bytes(&link.body, &link.record) {
                        Ok(_) => {},
                        Err(f) => {
                            assert(may_add_links(before, ls, k as int, Err(f)));
                            return Err(f);
                        },
                    }
                    g.emitted = emitted;
                    let leaf = Leaf {
                        name: file,
                        kind: EntryKind::Blob,
                        body: copy_body(&link.body),
                        record: copy_record(&link.record),
                    };
                    assert(outbound::opt_record(leaf.record) == leaf@.record);
                    let ns = g.tree.links.take();
                    g.tree.links = Some(place_leaf(ns, want.interaction_id.clone(), leaf));
                    assert(g@.tree =~= (TreeModel {
                        links: Some(
                            layout::placed(before.tree.links, want.interaction_id@, leaf@),
                        ),
                        ..before.tree
                    }));
                },
            }
        }
        assert forall|r: Result<Growth, SyncError>| #[trigger]
            may_add_links(g@, ls, k + 1, r) implies may_add_links(start, ls, 0, r) by {
            assert(may_add_links(before, ls, k as int, r));
        }
        k += 1;
    }
    assert(ls.len() == links@.len());
    assert(may_add_links(g@, ls, k as int, Ok(g@)));
    Ok(())
}

/// Adding the events that do not fall from position `k` on. The name of an entry follows from the
/// identity of the event, so that path and body cannot disagree.
pub open spec fn with_events(
    g: Growth,
    list: Seq<LocalModel<EventModel>>,
    removed: Set<Seq<char>>,
    k: int,
) -> Result<Growth, SyncError>
    decreases list.len() - k,
{
    if k < 0 || k >= list.len() {
        Ok(g)
    } else {
        let x = list[k].record;
        let file = x.event_id + ".json"@;
        if removed.contains(x.event_id) {
            with_events(g, list, removed, k + 1)
        } else if !(x.event_id == models::event_identity(x) && digest::is_hex(x.event_id, 64)) {
            Err(SyncError::InvalidLocalEvent)
        } else {
            match layout::lookup(g.tree.events, x.event_id.take(2), file) {
                Some(leaf) => if leaf.kind != EntryKind::Blob {
                    Err(SyncError::Malformed)
                } else if leaf.body != list[k].body {
                    Err(SyncError::EventConflict)
                } else {
                    with_events(g, list, removed, k + 1)
                },
                None => match tree::charged(
                    g.emitted,
                    list[k].body.len() as int,
                    MAX_SYNC_TOTAL_BYTES as int,
                ) {
                    Err(f) => Err(f),
                    Ok(emitted) => with_events(
                        Growth {
                            tree: TreeModel {
                                events: Some(
                                    layout::placed(
                                        g.tree.events,
                                        x.event_id.take(2),
                                        LeafModel {
                                            name: file,
                                            kind: EntryKind::Blob,
                                            body: list[k].body,
                                            record: Some(x),
                                        },
                                    ),
                                ),
                                ..g.tree
                            },
                            emitted,
                        },
                        list, removed,
                        k + 1,
                    ),
                },
            }
        }
    }
}

fn add_events(g: &mut Growing, list: &Vec<LocalRecord<DerivationEvent>>, removed: &StringHashSet) -> (r: Result<
    (),
    SyncError,
>)
    ensures
        match with_events(old(g)@, local_models(list@), removed@, 0) {
            Ok(n) => r is Ok && final(g)@ == n,
            Err(f) => r matches Err(e) && e == f,
        },
{
    let ghost ls = local_models(list@);
    let mut k: usize = 0;
    while k < list.len()
        invariant
            k <= list.len(),
            ls == local_models(list@),
            with_events(old(g)@, ls, removed@, 0) == with_events(g@, ls, removed@, k as int),
        decreases list.len() - k,
    {
        let item = &list[k];
        assert(ls[k as int] == item@);
        let x = &item.record;
        if removed.contains(x.event_id.as_str()) {
            k += 1;
            continue;
        }
        if !(x.verify_id() && any_hex(x.event_id.as_str(), 64)) {
            return Err(SyncError::InvalidLocalEvent);
        }
        proof {
            assert(x@.event_id.take(2)[0] == x@.event_id[0]);
            assert(x@.event_id.take(2)[1] == x@.event_id[1]);
        }
        let shard = shard_prefix(x.event_id.as_str());
        let file = glue(x.event_id.as_str(), ".json");
        let ghost before = g@;
        let verdict: Option<Result<(), SyncError>> = match lookup_leaf(
            &g.tree.events,
            shard.as_str(),
            file.as_str(),
        ) {
            Some(leaf) => Some(
                if leaf.kind != EntryKind::Blob {
                    Err(SyncError::Malformed)
                } else if !bytes_equal(leaf.body.as_slice(), item.body.as_slice()) {
                    Err(SyncError::EventConflict)
                } else {
                    Ok(())
                },
            ),
            None => None,
        };
        match verdict {
            Some(v) => match v {
                Ok(_) => {},
                Err(f) => {
                    return Err(f);
                },
            },
            None => {
                let mut emitted: usize = g.emitted;
                match add_sync_bytes(&mut emitted, item.body.len(), MAX_SYNC_TOTAL_BYTES) {
                    Ok(_) => {},
                    Err(f) => {
                        return Err(f);
                    },
                }
                g.emitted = emitted;
                let leaf = Leaf {
                    name: file,
                    kind: EntryKind::Blob,
                    body: copy_body(&item.body),
                    record: Some(x.clone()),
                };
                let ns = g.tree.events.take();
                g.tree.events = Some(place_leaf(ns, shard, leaf));
                assert(g@.tree =~= (TreeModel {
                    events: Some(layout::placed(before.tree.events, shard@, leaf@)),
                    ..before.tree
                }));
            },
        }
        k += 1;
    }
    assert(ls.len() == list@.len());
    Ok(())
}

/// Adding the ranges from position `k` on. A range that is there is immutable.
pub open spec fn with_ranges(
    g: Growth,
    list: Seq<LocalModel<RangeModel>>,
    k: int,
) -> Result<Growth, SyncError>
    decreases list.len() - k,
{
    if k < 0 || k >= list.len() {
        Ok(g)
    } else {
        let x = list[k].record;
        let file = x.range_id + ".json"@;
        if !(models::valid_range(x)) {
            Err(SyncError::InvalidLocalRange)
        } else {
            match layout::lookup(g.tree.ranges, x.range_id.take(2), file) {
                Some(leaf) => if leaf.kind != EntryKind::Blob {
                    Err(SyncError::Malformed)
                } else if leaf.body != list[k].body {
                    Err(SyncError::RangeConflict)
                } else {
                    with_ranges(g, list, k + 1)
                },
                None => match tree::charged(
                    g.emitted,
                    list[k].body.len() as int,
                    MAX_SYNC_TOTAL_BYTES as int,
                ) {
                    Err(f) => Err(f),
                    Ok(emitted) => with_ranges(
                        Growth {
                            tree: TreeModel {
                                ranges: Some(
                                    layout::placed(
                                        g.tree.ranges,
                                        x.range_id.take(2),
                                        LeafModel {
                                            name: file,
                                            kind: EntryKind::Blob,
                                            body: list[k].body,
                                            record: Some(x),
                                        },
                                    ),
                                ),
                                ..g.tree
                            },
                            emitted,
                        },
                        list,
                        k + 1,
                    ),
                },
            }
        }
    }
}

fn add_ranges(g: &mut Growing, list: &Vec<LocalRecord<RangeEvidence>>) -> (r: Result<
    (),
    SyncError,
>)
    ensures
        match with_ranges(old(g)@, local_models(list@), 0) {
            Ok(n) => r is Ok && final(g)@ == n,
            Err(f) => r matches Err(e) && e == f,
        },
{
    let ghost ls = local_models(list@);
    let mut k: usize = 0;
    while k < list.len()
        invariant
            k <= list.len(),
            ls == local_models(list@),
            with_ranges(old(g)@, ls, 0) == with_ranges(g@, ls, k as int),
        decreases list.len() - k,
    {
        let item = &list[k];
        assert(ls[k as int] == item@);
        let x = &item.record;
        
        if !(x.verify_id()) {
            return Err(SyncError::InvalidLocalRange);
        }
        proof {
            assert(x@.range_id.take(2)[0] == x@.range_id[0]);
            assert(x@.range_id.take(2)[1] == x@.range_id[1]);
        }
        let shard = shard_prefix(x.range_id.as_str());
        let file = glue(x.range_id.as_str(), ".json");
        let ghost before = g@;
        let verdict: Option<Result<(), SyncError>> = match lookup_leaf(
            &g.tree.ranges,
            shard.as_str(),
            file.as_str(),
        ) {
            Some(leaf) => Some(
                if leaf.kind != EntryKind::Blob {
                    Err(SyncError::Malformed)
                } else if !bytes_equal(leaf.body.as_slice(), item.body.as_slice()) {
                    Err(SyncError::RangeConflict)
                } else {
                    Ok(())
                },
            ),
            None => None,
        };
        match verdict {
            Some(v) => match v {
                Ok(_) => {},
                Err(f) => {
                    return Err(f);
                },
            },
            None => {
                let mut emitted: usize = g.emitted;
                match add_sync_bytes(&mut emitted, item.body.len(), MAX_SYNC_TOTAL_BYTES) {
                    Ok(_) => {},
                    Err(f) => {
                        return Err(f);
                    },
                }
                g.emitted = emitted;
                let leaf = Leaf {
                    name: file,
                    kind: EntryKind::Blob,
                    body: copy_body(&item.body),
                    record: Some(x.clone()),
                };
                let ns = g.tree.ranges.take();
                g.tree.ranges = Some(place_leaf(ns, shard, leaf));
                assert(g@.tree =~= (TreeModel {
                    ranges: Some(layout::placed(before.tree.ranges, shard@, leaf@)),
                    ..before.tree
                }));
            },
        }
        k += 1;
    }
    assert(ls.len() == list@.len());
    Ok(())
}

/// What the store wants to see in the tree.
pub struct LocalProjection {
    pub nodes: Vec<LocalNode>,
    pub tombstones: Vec<LocalRecord<Tombstone>>,
    pub links: Vec<LocalLink>,
    pub events: Vec<LocalRecord<DerivationEvent>>,
    pub ranges: Vec<LocalRecord<RangeEvidence>>,
}

/// The contents of [`LocalProjection`].
#[verifier::ext_equal]
pub struct LocalProjectionModel {
    pub nodes: Seq<LocalNodeModel>,
    pub tombstones: Seq<LocalModel<TombstoneModel>>,
    pub links: Seq<LocalLinkModel>,
    pub events: Seq<LocalModel<EventModel>>,
    pub ranges: Seq<LocalModel<RangeModel>>,
}

impl View for LocalProjection {
    type V = LocalProjectionModel;

    open spec fn view(&self) -> LocalProjectionModel {
        LocalProjectionModel {
            nodes: local_nodes(self.nodes@),
            tombstones: local_models(self.tombstones@),
            links: local_links(self.links@),
            events: local_models(self.events@),
            ranges: local_models(self.ranges@),
        }
    }
}

impl LocalProjection {
    /// Whether there is nothing to publish: no interaction and no suppression.
    pub fn is_empty(&self) -> (r: bool)
        ensures
            r == (self@.nodes.len() == 0 && self@.tombstones.len() == 0),
    {
        self.nodes.len() == 0 && self.tombstones.len() == 0
    }
}

/// The interactions that local tombstones suppress.
pub open spec fn local_suppressed(list: Seq<LocalModel<TombstoneModel>>) -> Seq<InteractionId> {
    list.map_values(|x: LocalModel<TombstoneModel>| x.record.interaction_id)
}

fn local_tombstone_ids(list: &Vec<LocalRecord<Tombstone>>) -> (r: Vec<InteractionId>)
    ensures
        r@ == local_suppressed(local_models(list@)),
{
    let ghost s = local_suppressed(local_models(list@));
    let mut out: Vec<InteractionId> = Vec::new();
    let mut k: usize = 0;
    while k < list.len()
        invariant
            k <= list.len(),
            s == local_suppressed(local_models(list@)),
            out@ == s.take(k as int),
        decreases list.len() - k,
    {
        assert(s[k as int] == list@[k as int].record.interaction_id);
        out.push(list[k].record.interaction_id);
        k += 1;
        assert(out@ =~= s.take(k as int));
    }
    assert(s.take(s.len() as int) =~= s);
    out
}

/// A tree with nothing in it.
pub open spec fn empty_tree() -> TreeModel {
    TreeModel {
        format: None,
        entries: Seq::empty(),
        tombstones: None,
        links: None,
        events: None,
        ranges: None,
        by_commit: None,
    }
}

/// The tree that a projection starts from: the baseline without anything of
/// the suppressed interactions. Tombstones dominate every earlier projection.
/// Where the destination has no tree yet, it starts from an empty one.
pub open spec fn seeded(base: Option<TreeModel>, ids: Seq<InteractionId>) -> Result<
    TreeModel,
    SyncError,
> {
    match base {
        None => if ids.len() == 0 {
            Ok(empty_tree())
        } else {
            prune::pruned(empty_tree(), ids)
        },
        Some(t) => match import::reserved_fault(t) {
            Some(f) => Err(f),
            None => if ids.len() == 0 {
                Ok(t)
            } else {
                prune::pruned(t, ids)
            },
        },
    }
}

/// The contents of a tree that may be absent.
pub open spec fn opt_tree(o: Option<Snapshot>) -> Option<TreeModel> {
    match o {
        Some(s) => Some(s@),
        None => None,
    }
}

/// The tree that a projection starts from.
pub fn seed_projection(base: Option<Snapshot>, suppressed: &Vec<InteractionId>) -> (r: Result<
    Snapshot,
    SyncError,
>)
    ensures
        match seeded(opt_tree(base), suppressed@) {
            Ok(t) => r matches Ok(s) && s@ == t,
            Err(f) => r matches Err(e) && e == f,
        },
{
    let snap = match base {
        Some(snap) => {
            match validate_v5_reserved_namespaces(&snap) {
                Ok(_) => {},
                Err(f) => {
                    return Err(f);
                },
            }
            snap
        },
        None => {
            let entries: Vec<TreeEntry> = Vec::new();
            let snap = Snapshot {
                format: None,
                entries,
                tombstones: None,
                links: None,
                events: None,
                ranges: None,
                by_commit: None,
            };
            assert(snap@ =~= empty_tree());
            snap
        },
    };
    if suppressed.len() == 0 {
        Ok(snap)
    } else {
        prune(snap, suppressed)
    }
}

/// The identities of local events that fall with the suppressed interactions.
pub open spec fn local_fallen(
    list: Seq<LocalModel<EventModel>>,
    ids: Seq<InteractionId>,
) -> Set<Seq<char>> {
    let events = list.map_values(|x: LocalModel<EventModel>| x.record);
    Set::new(|x: Seq<char>| derivation::falls(x, events, ids, false))
}

/// A namespace that is there, if only empty.
pub open spec fn present<M>(ns: Option<NamespaceModel<M>>) -> Option<NamespaceModel<M>> {
    match ns {
        Some(n) => Some(n),
        None => Some(NamespaceModel { kind: EntryKind::Tree, shards: Seq::empty() }),
    }
}

/// The format marker after a projection: known predecessors are upgraded, and
/// nothing is ever downgraded.
pub open spec fn upgraded(format: Option<Seq<u8>>) -> Result<Seq<u8>, SyncError> {
    match format {
        None => Ok(seq![53u8]),
        Some(body) => match import::format_number(body) {
            Err(f) => Err(f),
            Ok(n) => if n > 5 {
                Err(SyncError::FormatTooNew)
            } else if n < 5 {
                Ok(seq![53u8])
            } else {
                Ok(body)
            },
        },
    }
}

/// The tree with its index rebuilt from its own contents. The index is a
/// derived view, never an authority of its own.
pub open spec fn reindexed(t: TreeModel) -> Result<TreeModel, SyncError> {
    match tree::read_index(t.by_commit) {
        Err(f) => Err(f),
        Ok(_) => match tree_graph_fault(t) {
            Some(f) => Err(f),
            None => match endpoints(t) {
                Err(f) => Err(f),
                Ok(s) => Ok(TreeModel { by_commit: indexed(s.list, s.list.len()), ..t }),
            },
        },
    }
}

/// Adding events and ranges, and completing the tree.
pub open spec fn completed(
    g: Growth,
    events: Seq<LocalModel<EventModel>>,
    ranges: Seq<LocalModel<RangeModel>>,
    ids: Seq<InteractionId>,
) -> Result<TreeModel, SyncError> {
    match tree::read_events(g.tree.events, 0, MAX_SYNC_TOTAL_BYTES as int) {
        Err(f) => Err(f),
        Ok(_) => match with_events(g, events, local_fallen(events, ids), 0) {
            Err(f) => Err(f),
            Ok(g1) => match with_ranges(g1, ranges, 0) {
                Err(f) => Err(f),
                Ok(g2) => match reindexed(
                    TreeModel {
                        events: present(g2.tree.events),
                        ranges: present(g2.tree.ranges),
                        ..g2.tree
                    },
                ) {
                    Err(f) => Err(f),
                    Ok(t) => match upgraded(t.format) {
                        Err(f) => Err(f),
                        Ok(marker) => Ok(TreeModel { format: Some(marker), ..t }),
                    },
                },
            },
        },
    }
}

/// What may follow once the interactions are in the tree.
pub open spec fn may_continue(
    g: Growth,
    local: LocalProjectionModel,
    r: Result<TreeModel, SyncError>,
) -> bool {
    let ids = local_suppressed(local.tombstones);
    match with_tombstones(g, local.tombstones, 0) {
        Err(f) => r == Err::<TreeModel, SyncError>(f),
        Ok(g1) => exists|l: Result<Growth, SyncError>|
            #![trigger may_add_links(g1, local.links, 0, l)]
            may_add_links(g1, local.links, 0, l) && match l {
                Err(f) => r == Err::<TreeModel, SyncError>(f),
                Ok(g2) => r == completed(g2, local.events, local.ranges, ids),
            },
    }
}

/// A tree to which nothing has been added yet.
pub open spec fn ungrown(tree: TreeModel) -> Growth {
    Growth { tree, emitted: 0 }
}

/// What projecting the store into a tree may result in.
pub open spec fn may_project(
    seed: TreeModel,
    local: LocalProjectionModel,
    r: Result<TreeModel, SyncError>,
) -> bool {
    exists|n: Result<Growth, SyncError>| #[trigger]
        may_start(seed, local, n) && match n {
            Err(f) => r == Err::<TreeModel, SyncError>(f),
            Ok(g) => may_continue(g, local, r),
        }
}

/// What adding the interactions of the store may result in.
pub open spec fn may_start(
    seed: TreeModel,
    local: LocalProjectionModel,
    n: Result<Growth, SyncError>,
) -> bool {
    let dead = import::id_texts(local_suppressed(local.tombstones));
    may_add_nodes(ungrown(seed), local.nodes, dead, 0, n)
}

fn upgrade_format(format: &Option<Vec<u8>>) -> (r: Result<Vec<u8>, SyncError>)
    ensures
        match upgraded(match *format {
            Some(b) => Some(b@),
            None => None,
        }) {
            Ok(s) => r matches Ok(v) && v@ == s,
            Err(f) => r matches Err(e) && e == f,
        },
{
    let mut marker: Vec<u8> = Vec::new();
    marker.push(53);
    assert(marker@ =~= seq![53u8]);
    match format {
        None => Ok(marker),
        Some(body) => match read_format(body) {
            Err(f) => Err(f),
            Ok(n) => if n > 5 {
                Err(SyncError::FormatTooNew)
            } else if n < 5 {
                Ok(marker)
            } else {
                Ok(copy_body(body))
            },
        },
    }
}

/// Rebuilds the index of a tree from its own contents.
pub fn rebuild_index(snap: Snapshot) -> (r: Result<Snapshot, SyncError>)
    ensures
        match reindexed(snap@) {
            Ok(t) => r matches Ok(s) && s@ == t,
            Err(f) => r matches Err(e) && e == f,
        },
{
    let mut snap = snap;
    match validate_by_commit_structure(&snap.by_commit) {
        Ok(_) => {},
        Err(f) => {
            return Err(f);
        },
    }
    match validate_tree_derivation_graph(&snap) {
        Ok(_) => {},
        Err(f) => {
            return Err(f);
        },
    }
    let ghost before = snap@;
    match projected_endpoints(&snap) {
        Err(f) => Err(f),
        Ok(found) => {
            snap.by_commit = build_by_commit_tree(&found.list);
            assert(endpoint_models(found.list@).len() == found.list@.len());
            assert(snap@ =~= (TreeModel {
                by_commit: indexed(found@.list, found@.list.len()),
                ..before
            }));
            Ok(snap)
        },
    }
}

fn local_events(list: &Vec<LocalRecord<DerivationEvent>>) -> (r: Vec<DerivationEvent>)
    ensures
        derivation::models(r@) == local_models(list@).map_values(
            |x: LocalModel<EventModel>| x.record,
        ),
{
    let ghost s = local_models(list@).map_values(|x: LocalModel<EventModel>| x.record);
    let mut out: Vec<DerivationEvent> = Vec::new();
    let mut k: usize = 0;
    while k < list.len()
        invariant
            k <= list.len(),
            s == local_models(list@).map_values(|x: LocalModel<EventModel>| x.record),
            derivation::models(out@) == s.take(k as int),
        decreases list.len() - k,
    {
        assert(s[k as int] == list@[k as int].record@);
        let ghost held = derivation::models(out@);
        out.push(list[k].record.clone());
        assert(derivation::models(out@) =~= held.push(s[k as int]));
        k += 1;
        assert(derivation::models(out@) =~= s.take(k as int));
    }
    assert(s.take(s.len() as int) =~= s);
    out
}

fn complete(
    g: Growing,
    events: &Vec<LocalRecord<DerivationEvent>>,
    ranges: &Vec<LocalRecord<RangeEvidence>>,
    suppressed: &Vec<InteractionId>,
) -> (r: Result<Snapshot, SyncError>)
    ensures
        match completed(g@, local_models(events@), local_models(ranges@), suppressed@) {
            Ok(t) => r matches Ok(s) && s@ == t,
            Err(f) => r matches Err(e) && e == f,
        },
{
    let mut g = g;
    let mut bytes: usize = 0;
    match collect_derivation_events(&g.tree.events, &mut bytes, MAX_SYNC_TOTAL_BYTES) {
        Ok(_) => {},
        Err(f) => {
            return Err(f);
        },
    }
    let own = local_events(events);
    let removed = suppressed_events(&own, suppressed, false);
    assert(removed@ =~= local_fallen(local_models(events@), suppressed@));
    match add_events(&mut g, events, &removed) {
        Ok(_) => {},
        Err(f) => {
            return Err(f);
        },
    }
    match add_ranges(&mut g, ranges) {
        Ok(_) => {},
        Err(f) => {
            return Err(f);
        },
    }
    let ghost grown = g@.tree;
    let mut snap = g.tree;
    if snap.events.is_none() {
        let shards: Vec<Shard<DerivationEvent>> = Vec::new();
        assert(tree::shard_models(shards@) =~= Seq::empty());
        snap.events = Some(Namespace { kind: EntryKind::Tree, shards });
    }
    if snap.ranges.is_none() {
        let shards: Vec<Shard<RangeEvidence>> = Vec::new();
        assert(tree::shard_models(shards@) =~= Seq::empty());
        snap.ranges = Some(Namespace { kind: EntryKind::Tree, shards });
    }
    assert(snap@ =~= (TreeModel {
        events: present(grown.events),
        ranges: present(grown.ranges),
        ..grown
    }));
    let mut snap = match rebuild_index(snap) {
        Ok(snap) => snap,
        Err(f) => {
            return Err(f);
        },
    };
    let ghost before = snap@;
    match upgrade_format(&snap.format) {
        Err(f) => Err(f),
        Ok(marker) => {
            snap.format = Some(marker);
            assert(snap@ =~= (TreeModel { format: Some(marker@), ..before }));
            Ok(snap)
        },
    }
}

/// Projects the store into a seeded tree: new interactions, tombstones, links,
/// events and ranges are added under the byte budget, and the index is rebuilt.
pub fn project(seed: Snapshot, local: &LocalProjection) -> (r: Result<Snapshot, SyncError>)
    ensures
        match r {
            Ok(s) => may_project(seed@, local@, Ok(s@)),
            Err(f) => may_project(seed@, local@, Err(f)),
        },
{
    let ghost start = ungrown(seed@);
    let suppressed = local_tombstone_ids(&local.tombstones);
    let dead = texts_of_ids(&suppressed);
    let mut g = Growing { tree: seed, emitted: 0 };
    assert(g@ =~= start);
    match add_nodes(&mut g, &local.nodes, &dead) {
        Ok(_) => {},
        Err(f) => {
            proof {
                let n: Result<Growth, SyncError> = Err(f);
                assert(may_start(start.tree, local@, n));
            }
            return Err(f);
        },
    }
    let ghost g0 = g@;
    assert(may_start(start.tree, local@, Ok(g0)));
    match add_tombstones(&mut g, &local.tombstones) {
        Ok(_) => {},
        Err(f) => {
            assert(may_continue(g0, local@, Err(f)));
            return Err(f);
        },
    }
    let ghost g1 = g@;
    match add_links(&mut g, &local.links) {
        Ok(_) => {},
        Err(f) => {
            assert(may_add_links(g1, local@.links, 0, Err(f)));
            assert(may_continue(g0, local@, Err(f)));
            return Err(f);
        },
    }
    assert(may_add_links(g1, local@.links, 0, Ok(g@)));
    match complete(g, &local.events, &local.ranges, &suppressed) {
        Ok(s) => {
            assert(may_continue(g0, local@, Ok(s@)));
            Ok(s)
        },
        Err(f) => {
            assert(may_continue(g0, local@, Err(f)));
            Err(f)
        },
    }
}

proof fn lemma_indexed(list: Seq<(Seq<char>, Seq<char>)>, n: nat, commit: Seq<char>, id: Seq<char>)
    requires
        n <= list.len(),
    ensures
        layout::all_trees(indexed(list, n)),
        layout::lookup(indexed(list, n), commit, id) is Some <==> list.take(n as int).contains(
            (commit, id),
        ),
    decreases n,
{
    let t = list.take(n as int);
    if n == 0 {
    } else {
        let m = (n - 1) as nat;
        lemma_indexed(list, m, commit, id);
        layout::lemma_placed(
            indexed(list, m),
            list[n - 1].0,
            pointer(list[n - 1].1),
            commit,
            id,
        );
        let u = list.take(m as int);
        assert(t =~= u.push(list[n - 1]));
        if u.contains((commit, id)) {
            let k = u.index_of((commit, id));
            assert(t[k] == (commit, id));
        }
        if list[n - 1] == (commit, id) {
            assert(t[n - 1] == (commit, id));
        }
        if t.contains((commit, id)) {
            let k = t.index_of((commit, id));
            if k < m {
                assert(u[k] == (commit, id));
            }
        }
    }
}

/// The index points from a commit to an interaction exactly where the pair is
/// one of the endpoints.
pub proof fn law_index_lists_endpoints(t: TreeModel, commit: Seq<char>, id: Seq<char>)
    requires
        reindexed(t) is Ok,
    ensures
        layout::lookup(reindexed(t)->Ok_0.by_commit, commit, id) is Some <==> (
        endpoints(t)->Ok_0).list.contains((commit, id)),
{
    let list = (endpoints(t)->Ok_0).list;
    lemma_indexed(list, list.len(), commit, id);
    assert(list.take(list.len() as int) =~= list);
}

proof fn lemma_added_nodes_forget(
    g: Growth,
    nodes: Seq<LocalNodeModel>,
    dead: Set<Seq<char>>,
    k: int,
    done: Growth,
    id: InteractionId,
)
    requires
        may_add_nodes(g, nodes, dead, k, Ok(done)),
        dead.contains(id.text()),
        present_node(g.tree.entries, id) is None,
    ensures
        present_node(done.tree.entries, id) is None,
    decreases nodes.len() - k,
{
    if 0 <= k < nodes.len() {
        let other = nodes[k].id;
        if dead.contains(other.text()) {
            lemma_added_nodes_forget(g, nodes, dead, k + 1, done, id);
        } else {
            match present_node(g.tree.entries, other) {
                Some(_) => {
                    lemma_added_nodes_forget(g, nodes, dead, k + 1, done, id);
                },
                None => {
                    let b = nodes[k].blob->0;
                    let grown = Growth {
                        tree: TreeModel {
                            entries: layout::placed_node(
                                g.tree.entries,
                                other.text().take(2),
                                node_file(other),
                                b,
                            ),
                            ..g.tree
                        },
                        emitted: g.emitted + b.body.len(),
                    };
                    lemma_node_files(id, other);
                    layout::lemma_placed_node(
                        g.tree.entries,
                        other.text().take(2),
                        node_file(other),
                        b,
                        id.text().take(2),
                        node_file(id),
                    );
                    lemma_added_nodes_forget(grown, nodes, dead, k + 1, done, id);
                },
            }
        }
    }
}

/// Different interactions have different files, none of which is `nodes`.
pub proof fn lemma_node_files(a: InteractionId, b: InteractionId)
    ensures
        node_file(a) == node_file(b) ==> a.text() == b.text(),
        node_file(a) != "nodes"@,
        tree::json_stem(node_file(a)) == Some(a.text()),
{
    reveal_strlit(".json");
    reveal_strlit("nodes");
    lemma_uuid_shard(a.value);
    lemma_uuid_shard(b.value);
    assert(node_file(a).take(36) =~= a.text());
    assert(node_file(b).take(36) =~= b.text());
    assert(node_file(a).skip(36) =~= ".json"@);
    assert(node_file(a).len() == 41);
}

proof fn lemma_events_keep(
    g: Growth,
    list: Seq<LocalModel<EventModel>>,
    removed: Set<Seq<char>>,
    k: int,
)
    ensures
        with_events(g, list, removed, k) matches Ok(n) ==> n.tree.entries == g.tree.entries
            && n.tree.tombstones == g.tree.tombstones && n.tree.links == g.tree.links,
    decreases list.len() - k,
{
    if 0 <= k < list.len() {
        let x = list[k].record;
        lemma_events_keep(g, list, removed, k + 1);
        let grown = Growth {
            tree: TreeModel {
                events: Some(
                    layout::placed(
                        g.tree.events,
                        x.event_id.take(2),
                        LeafModel {
                            name: x.event_id + ".json"@,
                            kind: EntryKind::Blob,
                            body: list[k].body,
                            record: Some(x),
                        },
                    ),
                ),
                ..g.tree
            },
            emitted: g.emitted + list[k].body.len(),
        };
        lemma_events_keep(grown, list, removed, k + 1);
    }
}

/// Adding ranges changes nothing else.
pub proof fn lemma_ranges_keep(g: Growth, list: Seq<LocalModel<RangeModel>>, k: int)
    ensures
        with_ranges(g, list, k) matches Ok(n) ==> n.tree.entries == g.tree.entries
            && n.tree.tombstones == g.tree.tombstones && n.tree.links == g.tree.links
            && n.tree.events == g.tree.events,
    decreases list.len() - k,
{
    if 0 <= k < list.len() {
        let x = list[k].record;
        lemma_ranges_keep(g, list, k + 1);
        let grown = Growth {
            tree: TreeModel {
                ranges: Some(
                    layout::placed(
                        g.tree.ranges,
                        x.range_id.take(2),
                        LeafModel {
                            name: x.range_id + ".json"@,
                            kind: EntryKind::Blob,
                            body: list[k].body,
                            record: Some(x),
                        },
                    ),
                ),
                ..g.tree
            },
            emitted: g.emitted + list[k].body.len(),
        };
        lemma_ranges_keep(grown, list, k + 1);
    }
}

proof fn lemma_links_keep(g: Growth, links: Seq<LocalLinkModel>, k: int, done: Growth)
    requires
        may_add_links(g, links, k, Ok(done)),
    ensures
        done.tree.entries == g.tree.entries,
        done.tree.tombstones == g.tree.tombstones,
        done.tree.events == g.tree.events,
    decreases links.len() - k,
{
    if 0 <= k < links.len() {
        let want = links[k].intended;
        let file = want.git_commit_hash + ".json"@;
        if !derivation::automatic_link_type(want.link_type) || !derivation::is_commit_sha(
            want.git_commit_hash,
        ) {
            lemma_links_keep(g, links, k + 1, done);
        } else {
            match layout::lookup(g.tree.links, want.interaction_id, file) {
                Some(_) => {
                    lemma_links_keep(g, links, k + 1, done);
                },
                None => {
                    let grown = Growth {
                        tree: TreeModel {
                            links: Some(
                                layout::placed(
                                    g.tree.links,
                                    want.interaction_id,
                                    LeafModel {
                                        name: file,
                                        kind: EntryKind::Blob,
                                        body: links[k].body,
                                        record: links[k].record,
                                    },
                                ),
                            ),
                            ..g.tree
                        },
                        emitted: g.emitted + links[k].body.len(),
                    };
                    lemma_links_keep(grown, links, k + 1, done);
                },
            }
        }
    }
}

proof fn lemma_tombstones_keep(g: Growth, list: Seq<LocalModel<TombstoneModel>>, k: int)
    ensures
        with_tombstones(g, list, k) matches Ok(n) ==> n.tree.entries == g.tree.entries
            && n.tree.links == g.tree.links && n.tree.events == g.tree.events,
    decreases list.len() - k,
{
    if 0 <= k < list.len() {
        let t = list[k].record;
        lemma_tombstones_keep(g, list, k + 1);
        let grown = Growth {
            tree: TreeModel {
                tombstones: Some(
                    layout::placed(
                        g.tree.tombstones,
                        t.interaction_id.text().take(2),
                        LeafModel {
                            name: node_file(t.interaction_id),
                            kind: EntryKind::Blob,
                            body: list[k].body,
                            record: Some(t),
                        },
                    ),
                ),
                ..g.tree
            },
            emitted: g.emitted + list[k].body.len(),
        };
        lemma_tombstones_keep(grown, list, k + 1);
    }
}

proof fn lemma_nodes_keep(
    g: Growth,
    nodes: Seq<LocalNodeModel>,
    dead: Set<Seq<char>>,
    k: int,
    done: Growth,
)
    requires
        may_add_nodes(g, nodes, dead, k, Ok(done)),
    ensures
        done.tree.links == g.tree.links,
        done.tree.events == g.tree.events,
    decreases nodes.len() - k,
{
    if 0 <= k < nodes.len() {
        let id = nodes[k].id;
        if dead.contains(id.text()) || present_node(g.tree.entries, id) is Some {
            lemma_nodes_keep(g, nodes, dead, k + 1, done);
        } else {
            let b = nodes[k].blob->0;
            let grown = Growth {
                tree: TreeModel {
                    entries: layout::placed_node(
                        g.tree.entries,
                        id.text().take(2),
                        node_file(id),
                        b,
                    ),
                    ..g.tree
                },
                emitted: g.emitted + b.body.len(),
            };
            lemma_nodes_keep(grown, nodes, dead, k + 1, done);
        }
    }
}

/// The steps of a projection: adding interactions, tombstones and links. What
/// follows leaves all three as they are, adds events and ranges, and completes
/// the tree.
pub proof fn lemma_projection_steps(
    seed: TreeModel,
    local: LocalProjectionModel,
    t: TreeModel,
) -> (steps: (Growth, Growth, Growth))
    requires
        may_project(seed, local, Ok(t)),
    ensures
        may_add_nodes(
            ungrown(seed),
            local.nodes,
            import::id_texts(local_suppressed(local.tombstones)),
            0,
            Ok(steps.0),
        ),
        with_tombstones(steps.0, local.tombstones, 0) == Ok::<Growth, SyncError>(steps.1),
        may_add_links(steps.1, local.links, 0, Ok(steps.2)),
        t.entries == steps.0.tree.entries,
        t.tombstones == steps.1.tree.tombstones,
        t.links == steps.2.tree.links,
        steps.1.tree.links == steps.0.tree.links,
        steps.0.tree.links == seed.links,
        steps.2.tree.events == seed.events,
        steps.2.tree.entries == steps.0.tree.entries,
        completed(steps.2, local.events, local.ranges, local_suppressed(local.tombstones))
            == Ok::<TreeModel, SyncError>(t),
{
    let ids = local_suppressed(local.tombstones);
    let n = choose|n: Result<Growth, SyncError>| #[trigger]
        may_start(seed, local, n) && match n {
            Err(f) => Ok::<TreeModel, SyncError>(t) == Err::<TreeModel, SyncError>(f),
            Ok(g) => may_continue(g, local, Ok(t)),
        };
    let g = n->Ok_0;
    lemma_nodes_keep(ungrown(seed), local.nodes, import::id_texts(ids), 0, g);
    lemma_tombstones_keep(g, local.tombstones, 0);
    let g1 = with_tombstones(g, local.tombstones, 0)->Ok_0;
    let l = choose|l: Result<Growth, SyncError>|
        #![trigger may_add_links(g1, local.links, 0, l)]
        may_add_links(g1, local.links, 0, l) && match l {
            Err(f) => Ok::<TreeModel, SyncError>(t) == Err::<TreeModel, SyncError>(f),
            Ok(g2) => Ok::<TreeModel, SyncError>(t) == completed(
                g2,
                local.events,
                local.ranges,
                ids,
            ),
        };
    let g2 = l->Ok_0;
    lemma_links_keep(g1, local.links, 0, g2);
    let removed = local_fallen(local.events, ids);
    lemma_events_keep(g2, local.events, removed, 0);
    let g3 = with_events(g2, local.events, removed, 0)->Ok_0;
    lemma_ranges_keep(g3, local.ranges, 0);
    (g, g1, g2)
}

/// A projection never brings back a suppressed interaction: one that the seed
/// does not hold is not in the result, whatever the store offers.
pub proof fn law_projection_suppresses(
    seed: TreeModel,
    local: LocalProjectionModel,
    t: TreeModel,
    id: InteractionId,
)
    requires
        may_project(seed, local, Ok(t)),
        local_suppressed(local.tombstones).contains(id),
        present_node(seed.entries, id) is None,
    ensures
        present_node(t.entries, id) is None,
{
    let ids = local_suppressed(local.tombstones);
    import::lemma_id_texts(ids, id);
    let (g, _, _) = lemma_projection_steps(seed, local, t);
    lemma_added_nodes_forget(ungrown(seed), local.nodes, import::id_texts(ids), 0, g, id);
}

} // verus!
