//! Content-only, rename-agnostic identity of a tree transition.
//!
//! The encoding is deliberately not a patch. Each changed path carries both
//! complete tree endpoints (kind, mode and object name), making text, binary,
//! symbolic link, submodule and type changes equivalent inputs to the digest.

use crate::digest;
use crate::digest::{hex_digest, put_bytes, put_field, put_u64};
use crate::order;
use crate::order::bytes_less;
use crate::text::{bytes_equal, glue};
use vstd::multiset::*;
use vstd::prelude::*;
use vstd::relations::*;
use vstd::seq_lib::*;
use vstd::string::*;
use vstd::utf8::*;

verus! {

pub const ALGORITHM: &'static str = "cvc.changeset/v1";

pub const MAX_DELTAS: usize = 10000;

pub const MAX_PATH_BYTES: usize = 4096;

pub const MAX_CANONICAL_BYTES: usize = 67108864;

/// The identity of a tree transition.
#[derive(Debug, Clone, PartialEq, Eq)]
pub struct ChangesetId {
    pub algorithm: &'static str,
    pub digest: String,
    pub deltas: usize,
    pub canonical_bytes: usize,
}

/// Why a tree transition has no identity.
#[derive(Debug)]
pub enum ChangesetError {
    Git(String),
    Bound(&'static str),
    Delta,
    ObjectFormat,
    Deadline,
}

impl ChangesetError {
    /// The message for people.
    pub open spec fn text(self) -> Seq<char> {
        match self {
            ChangesetError::Git(words) => "git: "@ + words@,
            ChangesetError::Bound(what) => "changeset bound exceeded: "@ + what@,
            ChangesetError::Delta => "unsupported diff delta"@,
            ChangesetError::ObjectFormat => "unsupported Git object format"@,
            ChangesetError::Deadline => "changeset deadline exceeded"@,
        }
    }

    /// The message for people.
    pub fn message(&self) -> (r: String)
        ensures
            r@ == self.text(),
    {
        match self {
            ChangesetError::Git(words) => glue("git: ", words.as_str()),
            ChangesetError::Bound(what) => glue("changeset bound exceeded: ", what),
            ChangesetError::Delta => "unsupported diff delta".to_owned(),
            ChangesetError::ObjectFormat => "unsupported Git object format".to_owned(),
            ChangesetError::Deadline => "changeset deadline exceeded".to_owned(),
        }
    }
}

/// The reasons that lie in the changes themselves.
#[verifier::ext_equal]
pub enum ChangesetFault {
    Bound(Seq<char>),
    Delta,
    ObjectFormat,
}

/// The error reports the fault.
pub open spec fn reports_fault(e: ChangesetError, f: ChangesetFault) -> bool {
    match f {
        ChangesetFault::Bound(what) => e matches ChangesetError::Bound(said) && said@ == what,
        ChangesetFault::Delta => e is Delta,
        ChangesetFault::ObjectFormat => e is ObjectFormat,
    }
}

/// What happened to a path.
#[derive(Debug, Clone, Copy, PartialEq, Eq, Structural)]
pub enum DeltaStatus {
    Unmodified,
    Added,
    Deleted,
    Modified,
    Typechange,
    /// Anything else, such as a rename or a conflict.
    Other,
}

/// One side of a change, as the tree comparison gives it.
pub struct DeltaSide {
    pub path: Option<Vec<u8>>,
    pub mode: u32,
    pub oid: Vec<u8>,
}

/// The contents of [`DeltaSide`].
#[verifier::ext_equal]
pub struct SideModel {
    pub path: Option<Seq<u8>>,
    pub mode: u32,
    pub oid: Seq<u8>,
}

impl View for DeltaSide {
    type V = SideModel;

    open spec fn view(&self) -> SideModel {
        SideModel {
            path: match self.path {
                Some(p) => Some(p@),
                None => None,
            },
            mode: self.mode,
            oid: self.oid@,
        }
    }
}

/// A change of one path.
pub struct TreeDelta {
    pub status: DeltaStatus,
    pub old: DeltaSide,
    pub new: DeltaSide,
}

/// The contents of [`TreeDelta`].
#[verifier::ext_equal]
pub struct DeltaModel {
    pub status: DeltaStatus,
    pub old: SideModel,
    pub new: SideModel,
}

impl View for TreeDelta {
    type V = DeltaModel;

    open spec fn view(&self) -> DeltaModel {
        DeltaModel { status: self.status, old: self.old@, new: self.new@ }
    }
}

/// The contents of changes.
pub open spec fn delta_models(s: Seq<TreeDelta>) -> Seq<DeltaModel> {
    s.map_values(|d: TreeDelta| d@)
}

/// What the identity covers of a changed path.
#[verifier::ext_equal]
pub struct RecordModel {
    pub path: Seq<u8>,
    pub status: u8,
    pub old: Seq<u8>,
    pub new: Seq<u8>,
}

struct Record {
    path: Vec<u8>,
    status: u8,
    old: Vec<u8>,
    new: Vec<u8>,
}

impl View for Record {
    type V = RecordModel;

    closed spec fn view(&self) -> RecordModel {
        RecordModel { path: self.path@, status: self.status, old: self.old@, new: self.new@ }
    }
}

spec fn record_models(s: Seq<Record>) -> Seq<RecordModel> {
    s.map_values(|x: Record| x@)
}

/// Four bytes, the most significant first.
pub open spec fn be32(n: u32) -> Seq<u8> {
    seq![
        ((n >> 24) & 0xff) as u8,
        ((n >> 16) & 0xff) as u8,
        ((n >> 8) & 0xff) as u8,
        (n & 0xff) as u8,
    ]
}

/// Every byte is zero.
pub open spec fn all_zero(s: Seq<u8>) -> bool {
    forall|i: int| 0 <= i < s.len() ==> #[trigger] s[i] == 0
}

/// The side names an object.
pub open spec fn side_exists(side: SideModel) -> bool {
    side.mode != 0 && !all_zero(side.oid)
}

/// The kind of object that a mode stands for: a file, a symbolic link, a
/// submodule, a tree, or something else.
pub open spec fn mode_kind(mode: u32) -> u8 {
    if mode == 0o100644 || mode == 0o100755 {
        1
    } else if mode == 0o120000 {
        2
    } else if mode == 0o160000 {
        3
    } else if mode == 0o040000 {
        4
    } else {
        5
    }
}

/// A complete endpoint: whether it exists, its kind, its mode and its object name.
pub open spec fn endpoint_value(side: SideModel) -> Seq<u8> {
    if side_exists(side) {
        seq![1u8, mode_kind(side.mode)] + be32(side.mode) + side.oid
    } else {
        seq![0u8, 0u8] + be32(side.mode) + Seq::new(20, |i: int| 0u8)
    }
}

/// Only object names of twenty bytes are supported.
pub open spec fn wrong_format(side: SideModel) -> bool {
    side_exists(side) && side.oid.len() != 20
}

/// The number of a status.
pub open spec fn status_code(status: DeltaStatus) -> Option<u8> {
    match status {
        DeltaStatus::Unmodified => Some(0),
        DeltaStatus::Added => Some(1),
        DeltaStatus::Deleted => Some(2),
        DeltaStatus::Modified => Some(3),
        DeltaStatus::Typechange => Some(4),
        DeltaStatus::Other => None,
    }
}

/// The path that a change is about.
pub open spec fn delta_path(d: DeltaModel) -> Option<Seq<u8>> {
    if d.status is Deleted {
        d.old.path
    } else {
        d.new.path
    }
}

/// The record of a change, or why there is none.
pub open spec fn record_of(d: DeltaModel) -> Result<RecordModel, ChangesetFault> {
    match (status_code(d.status), delta_path(d)) {
        (Some(status), Some(path)) => if path.len() > MAX_PATH_BYTES {
            Err(ChangesetFault::Bound("path"@))
        } else if wrong_format(d.old) || wrong_format(d.new) {
            Err(ChangesetFault::ObjectFormat)
        } else {
            Ok(
                RecordModel {
                    path,
                    status,
                    old: endpoint_value(d.old),
                    new: endpoint_value(d.new),
                },
            )
        },
        _ => Err(ChangesetFault::Delta),
    }
}

/// The records of the first `k` changes.
pub open spec fn records_of(deltas: Seq<DeltaModel>, k: nat) -> Result<
    Seq<RecordModel>,
    ChangesetFault,
>
    decreases k,
{
    if k == 0 {
        Ok(Seq::empty())
    } else {
        match records_of(deltas, (k - 1) as nat) {
            Err(f) => Err(f),
            Ok(done) => match record_of(deltas[k - 1]) {
                Err(f) => Err(f),
                Ok(record) => Ok(done.push(record)),
            },
        }
    }
}

/// The order of records: by path, then status, then endpoints.
pub open spec fn record_lt(a: RecordModel, b: RecordModel) -> bool {
    if a.path != b.path {
        order::bytes_lt(a.path, b.path)
    } else if a.status != b.status {
        a.status < b.status
    } else if a.old != b.old {
        order::bytes_lt(a.old, b.old)
    } else {
        order::bytes_lt(a.new, b.new)
    }
}

/// The order of records, with equality.
pub open spec fn record_le() -> spec_fn(RecordModel, RecordModel) -> bool {
    |a: RecordModel, b: RecordModel| a == b || record_lt(a, b)
}

/// The bytes of a record.
pub open spec fn record_bytes(r: RecordModel) -> Seq<u8> {
    digest::field(3, r.path) + (digest::field(4, seq![r.status]) + (digest::field(5, r.old)
        + digest::field(6, r.new)))
}

/// The bytes of records, one behind the other.
pub open spec fn records_bytes(s: Seq<RecordModel>) -> Seq<u8>
    decreases s.len(),
{
    if s.len() == 0 {
        Seq::empty()
    } else {
        records_bytes(s.drop_last()) + record_bytes(s.last())
    }
}

/// The bytes that the identity of ordered records is the digest of.
pub open spec fn changeset_payload(s: Seq<RecordModel>) -> Seq<u8> {
    digest::field(1, encode_utf8("cvc.changeset/v1"@)) + (digest::field(
        2,
        digest::be64(s.len() as u64),
    ) + records_bytes(s))
}

/// The bytes that the identity of a tree transition is the digest of, or why it
/// has none.
pub open spec fn changeset_bytes(deltas: Seq<DeltaModel>) -> Result<Seq<u8>, ChangesetFault> {
    if deltas.len() > MAX_DELTAS {
        Err(ChangesetFault::Bound("deltas"@))
    } else {
        match records_of(deltas, deltas.len()) {
            Err(f) => Err(f),
            Ok(records) => {
                let payload = changeset_payload(records.sort_by(record_le()));
                if payload.len() > MAX_CANONICAL_BYTES {
                    Err(ChangesetFault::Bound("material"@))
                } else {
                    Ok(payload)
                }
            },
        }
    }
}

proof fn lemma_records_stuck(deltas: Seq<DeltaModel>, k: nat, n: nat)
    requires
        k <= n,
        records_of(deltas, k) is Err,
    ensures
        records_of(deltas, n) == records_of(deltas, k),
    decreases n,
{
    if k < n {
        lemma_records_stuck(deltas, k, (n - 1) as nat);
    }
}

proof fn lemma_record_lt_transitive(a: RecordModel, b: RecordModel, c: RecordModel)
    requires
        record_lt(a, b),
        record_lt(b, c),
    ensures
        record_lt(a, c),
{
    order::lemma_bytes_lt_irreflexive(a.path);
    order::lemma_bytes_lt_irreflexive(a.old);
    order::lemma_bytes_lt_irreflexive(a.new);
    if a.path != b.path && b.path != c.path {
        order::lemma_bytes_lt_transitive(a.path, b.path, c.path);
    } else if a.path == b.path && b.path == c.path && a.status == b.status && b.status == c.status {
        if a.old != b.old && b.old != c.old {
            order::lemma_bytes_lt_transitive(a.old, b.old, c.old);
        } else if a.old == b.old && b.old == c.old {
            order::lemma_bytes_lt_transitive(a.new, b.new, c.new);
        }
    }
}

proof fn lemma_record_lt_asymmetric(a: RecordModel, b: RecordModel)
    requires
        record_lt(a, b),
    ensures
        !record_lt(b, a),
        a != b,
{
    order::lemma_bytes_lt_irreflexive(a.path);
    order::lemma_bytes_lt_irreflexive(a.old);
    order::lemma_bytes_lt_irreflexive(a.new);
    if record_lt(b, a) {
        lemma_record_lt_transitive(a, b, a);
    }
}

proof fn lemma_record_lt_total(a: RecordModel, b: RecordModel)
    ensures
        a == b || record_lt(a, b) || record_lt(b, a),
{
    order::lemma_bytes_lt_total(a.path, b.path);
    order::lemma_bytes_lt_total(a.old, b.old);
    order::lemma_bytes_lt_total(a.new, b.new);
    if a.path == b.path && a.status == b.status && a.old == b.old && a.new == b.new {
        assert(a == b);
    }
}

pub proof fn lemma_record_order()
    ensures
        total_ordering(record_le()),
{
    let le = record_le();
    assert forall|x: RecordModel, y: RecordModel| #[trigger] le(x, y) && #[trigger] le(
        y,
        x,
    ) implies x == y by {
        if x != y {
            lemma_record_lt_asymmetric(x, y);
        }
    }
    assert forall|x: RecordModel, y: RecordModel, z: RecordModel| #[trigger]
        le(x, y) && #[trigger] le(y, z) implies le(x, z) by {
        if x != y && y != z {
            lemma_record_lt_transitive(x, y, z);
        }
    }
    assert forall|x: RecordModel, y: RecordModel| #[trigger] le(x, y) || #[trigger] le(y, x) by {
        lemma_record_lt_total(x, y);
    }
}

fn put_u32(out: &mut Vec<u8>, n: u32)
    ensures
        final(out)@ == old(out)@ + be32(n),
{
    let ghost start = out@;
    out.push(((n >> 24) & 0xff) as u8);
    out.push(((n >> 16) & 0xff) as u8);
    out.push(((n >> 8) & 0xff) as u8);
    out.push((n & 0xff) as u8);
    assert(out@ =~= start + be32(n));
}

fn names_object(side: &DeltaSide) -> (r: bool)
    ensures
        r == side_exists(side@),
{
    if side.mode == 0 {
        return false;
    }
    let n: usize = side.oid.len();
    let mut i: usize = 0;
    while i < n
        invariant
            i <= n,
            n == side.oid@.len(),
            side.mode != 0,
            forall|k: int| 0 <= k < i ==> #[trigger] side.oid@[k] == 0,
        decreases n - i,
    {
        if side.oid[i] != 0 {
            assert(side@.oid[i as int] != 0);
            return true;
        }
        i += 1;
    }
    assert(all_zero(side@.oid));
    false
}

fn kind_of_mode(mode: u32) -> (r: u8)
    ensures
        r == mode_kind(mode),
{
    if mode == 0o100644 || mode == 0o100755 {
        1
    } else if mode == 0o120000 {
        2
    } else if mode == 0o160000 {
        3
    } else if mode == 0o040000 {
        4
    } else {
        5
    }
}

/// The endpoint of one side, unless its object name has an unsupported format.
fn endpoint(side: &DeltaSide) -> (r: Option<Vec<u8>>)
    ensures
        r is None <==> wrong_format(side@),
        r matches Some(value) ==> value@ == endpoint_value(side@),
{
    let mut out: Vec<u8> = Vec::new();
    if names_object(side) {
        if side.oid.len() != 20 {
            return None;
        }
        out.push(1);
        out.push(kind_of_mode(side.mode));
        put_u32(&mut out, side.mode);
        put_bytes(&mut out, side.oid.as_slice());
        assert(out@ =~= endpoint_value(side@));
        return Some(out);
    }
    out.push(0);
    out.push(0);
    put_u32(&mut out, side.mode);
    let ghost head = out@;
    let mut i: usize = 0;
    while i < 20
        invariant
            i <= 20,
            out@ == head + Seq::new(i as nat, |j: int| 0u8),
        decreases 20 - i,
    {
        out.push(0);
        i += 1;
        assert(out@ =~= head + Seq::new(i as nat, |j: int| 0u8));
    }
    assert(out@ =~= endpoint_value(side@));
    Some(out)
}

fn read_record(d: &TreeDelta) -> (r: Result<Record, ChangesetError>)
    ensures
        match r {
            Ok(record) => record_of(d@) == Ok::<RecordModel, ChangesetFault>(record@),
            Err(e) => record_of(d@) is Err && reports_fault(e, record_of(d@)->Err_0),
        },
{
    let status: u8 = match d.status {
        DeltaStatus::Unmodified => 0,
        DeltaStatus::Added => 1,
        DeltaStatus::Deleted => 2,
        DeltaStatus::Modified => 3,
        DeltaStatus::Typechange => 4,
        DeltaStatus::Other => {
            return Err(ChangesetError::Delta);
        },
    };
    let side = if status == 2 {
        &d.old
    } else {
        &d.new
    };
    let held = match &side.path {
        None => {
            return Err(ChangesetError::Delta);
        },
        Some(held) => held,
    };
    if held.len() > MAX_PATH_BYTES {
        return Err(ChangesetError::Bound("path"));
    }
    let old = match endpoint(&d.old) {
        None => {
            return Err(ChangesetError::ObjectFormat);
        },
        Some(old) => old,
    };
    let new = match endpoint(&d.new) {
        None => {
            return Err(ChangesetError::ObjectFormat);
        },
        Some(new) => new,
    };
    let mut path: Vec<u8> = Vec::new();
    put_bytes(&mut path, held.as_slice());
    assert(path@ =~= held@);
    Ok(Record { path, status, old, new })
}

fn record_less(a: &Record, b: &Record) -> (r: bool)
    ensures
        r == record_lt(a@, b@),
{
    if !bytes_equal(a.path.as_slice(), b.path.as_slice()) {
        bytes_less(a.path.as_slice(), b.path.as_slice())
    } else if a.status != b.status {
        a.status < b.status
    } else if !bytes_equal(a.old.as_slice(), b.old.as_slice()) {
        bytes_less(a.old.as_slice(), b.old.as_slice())
    } else {
        bytes_less(a.new.as_slice(), b.new.as_slice())
    }
}

/// Puts a record into an ascending list.
fn insert_record(list: &mut Vec<Record>, x: Record)
    requires
        sorted_by(record_models(old(list)@), record_le()),
    ensures
        sorted_by(record_models(final(list)@), record_le()),
        record_models(final(list)@).to_multiset() == record_models(
            old(list)@,
        ).to_multiset().insert(x@),
{
    let ghost s = record_models(list@);
    let ghost le = record_le();
    let n: usize = list.len();
    let mut k: usize = n;
    while k > 0
        invariant
            k <= n,
            n == list@.len(),
            s == record_models(list@),
            s.len() == n,
            le == record_le(),
            sorted_by(s, le),
            forall|j: int| k <= j < n ==> record_lt(x@, #[trigger] s[j]),
        ensures
            k <= n,
            k == 0 || le(s[k - 1], x@),
            forall|j: int| k <= j < n ==> record_lt(x@, #[trigger] s[j]),
        decreases k,
    {
        assert(s[k - 1] == list@[k - 1]@);
        if !record_less(&x, &list[k - 1]) {
            proof {
                lemma_record_lt_total(s[k - 1], x@);
            }
            break;
        }
        k -= 1;
    }
    list.insert(k, x);
    let ghost t = record_models(list@);
    proof {
        assert(t =~= s.insert(k as int, x@));
        to_multiset_insert(s, k as int, x@);
        lemma_record_order();
        assert forall|i: int, j: int| 0 <= i < j < t.len() implies #[trigger] le(t[i], t[j]) by {
            if i < k && j < k {
                assert(le(s[i], s[j]));
            } else if i > k && j > k {
                assert(le(s[i - 1], s[j - 1]));
            } else if i == k {
                assert(t[j] == s[j - 1]);
            } else if j == k {
                if i < k - 1 {
                    assert(le(s[i], s[k - 1]));
                }
                assert(le(s[i], x@)) by {
                    if i < k - 1 && s[i] != s[k - 1] && s[k - 1] != x@ {
                        lemma_record_lt_transitive(s[i], s[k - 1], x@);
                    }
                }
            } else {
                assert(le(s[i], s[j - 1]));
            }
        }
    }
}

fn put_record(out: &mut Vec<u8>, r: &Record)
    ensures
        final(out)@ == old(out)@ + record_bytes(r@),
{
    let ghost start = out@;
    let ghost m = r@;
    let mut status: Vec<u8> = Vec::new();
    status.push(r.status);
    assert(status@ =~= seq![m.status]);
    put_field(out, 3, r.path.as_slice());
    put_field(out, 4, status.as_slice());
    put_field(out, 5, r.old.as_slice());
    put_field(out, 6, r.new.as_slice());
    assert(out@ =~= start + record_bytes(m));
}

/// Identifies the transition between two trees by its changes. The order in
/// which the changes are listed does not matter.
pub fn identify(deltas: &Vec<TreeDelta>) -> (r: Result<ChangesetId, ChangesetError>)
    ensures
        match r {
            Ok(id) => {
                &&& changeset_bytes(delta_models(deltas@)) is Ok
                &&& id.algorithm@ == "cvc.changeset/v1"@
                &&& id.digest@ == digest::digest_text(
                    changeset_bytes(delta_models(deltas@))->Ok_0,
                )
                &&& id.deltas == deltas@.len()
                &&& id.canonical_bytes == changeset_bytes(delta_models(deltas@))->Ok_0.len()
            },
            Err(e) => changeset_bytes(delta_models(deltas@)) is Err && reports_fault(
                e,
                changeset_bytes(delta_models(deltas@))->Err_0,
            ),
        },
{
    let ghost all = delta_models(deltas@);
    let ghost le = record_le();
    let n: usize = deltas.len();
    if n > MAX_DELTAS {
        return Err(ChangesetError::Bound("deltas"));
    }
    let mut records: Vec<Record> = Vec::new();
    let ghost mut done: Seq<RecordModel> = Seq::empty();
    let mut i: usize = 0;
    proof {
        assert(record_models(records@) =~= Seq::<RecordModel>::empty());
        assert(sorted_by(record_models(records@), le));
    }
    while i < n
        invariant
            i <= n,
            n == deltas@.len(),
            n <= MAX_DELTAS,
            all == delta_models(deltas@),
            le == record_le(),
            done.len() == i,
            records_of(all, i as nat) == Ok::<Seq<RecordModel>, ChangesetFault>(done),
            sorted_by(record_models(records@), le),
            record_models(records@).to_multiset() == done.to_multiset(),
        decreases n - i,
    {
        assert(all[i as int] == deltas@[i as int]@);
        match read_record(&deltas[i]) {
            Err(e) => {
                proof {
                    lemma_records_stuck(all, (i + 1) as nat, n as nat);
                }
                return Err(e);
            },
            Ok(record) => {
                proof {
                    to_multiset_build(done, record@);
                    done = done.push(record@);
                }
                insert_record(&mut records, record);
            },
        }
        i += 1;
    }
    let ghost sorted = record_models(records@);
    proof {
        lemma_record_order();
        done.lemma_sort_by_ensures(le);
        lemma_sorted_unique(sorted, done.sort_by(le), le);
        to_multiset_len(sorted);
        to_multiset_len(done);
    }
    let mut count: Vec<u8> = Vec::new();
    put_u64(&mut count, n as u64);
    assert(count@ =~= digest::be64(n as u64));
    let mut h: Vec<u8> = Vec::new();
    put_field(&mut h, 1, "cvc.changeset/v1".as_bytes());
    put_field(&mut h, 2, count.as_slice());
    let ghost head = h@;
    let m: usize = records.len();
    let mut k: usize = 0;
    assert(h@ =~= head + records_bytes(sorted.take(0)));
    while k < m
        invariant
            k <= m,
            m == records@.len(),
            sorted == record_models(records@),
            h@ == head + records_bytes(sorted.take(k as int)),
        decreases m - k,
    {
        put_record(&mut h, &records[k]);
        proof {
            assert(sorted.take(k + 1).drop_last() =~= sorted.take(k as int));
            assert(sorted.take(k + 1).last() == records@[k as int]@);
            assert(h@ =~= head + records_bytes(sorted.take(k + 1)));
        }
        k += 1;
    }
    assert(sorted.take(m as int) =~= sorted);
    assert(h@ =~= changeset_payload(sorted));
    if h.len() > MAX_CANONICAL_BYTES {
        return Err(ChangesetError::Bound("material"));
    }
    Ok(
        ChangesetId {
            algorithm: "cvc.changeset/v1",
            digest: hex_digest(h.as_slice()),
            deltas: n,
            canonical_bytes: h.len(),
        },
    )
}

proof fn lemma_records_bytes_front(s: Seq<RecordModel>)
    requires
        s.len() > 0,
    ensures
        records_bytes(s) == record_bytes(s[0]) + records_bytes(s.drop_first()),
    decreases s.len(),
{
    if s.len() == 1 {
        assert(s.drop_last() =~= Seq::<RecordModel>::empty());
        assert(s.drop_first() =~= Seq::<RecordModel>::empty());
        assert(records_bytes(s) =~= record_bytes(s[0]) + records_bytes(s.drop_first()));
    } else {
        lemma_records_bytes_front(s.drop_last());
        assert(s.drop_first().drop_last() =~= s.drop_last().drop_first());
        assert(records_bytes(s) =~= record_bytes(s[0]) + records_bytes(s.drop_first()));
    }
}

/// The fields of a record fit their length prefixes.
pub open spec fn measured(s: Seq<RecordModel>) -> bool {
    forall|i: int|
        0 <= i < s.len() ==> (#[trigger] s[i]).path.len() <= u64::MAX && s[i].old.len() <= u64::MAX
            && s[i].new.len() <= u64::MAX
}

proof fn lemma_record_prefix(x: RecordModel, y: RecordModel, ra: Seq<u8>, rb: Seq<u8>)
    requires
        x.path.len() <= u64::MAX && x.old.len() <= u64::MAX && x.new.len() <= u64::MAX,
        y.path.len() <= u64::MAX && y.old.len() <= u64::MAX && y.new.len() <= u64::MAX,
        record_bytes(x) + ra == record_bytes(y) + rb,
    ensures
        x == y,
        ra == rb,
{
    let a6 = digest::field(6, x.new) + ra;
    let b6 = digest::field(6, y.new) + rb;
    let a5 = digest::field(5, x.old) + a6;
    let b5 = digest::field(5, y.old) + b6;
    let a4 = digest::field(4, seq![x.status]) + a5;
    let b4 = digest::field(4, seq![y.status]) + b5;
    assert(record_bytes(x) + ra =~= digest::field(3, x.path) + a4);
    assert(record_bytes(y) + rb =~= digest::field(3, y.path) + b4);
    digest::lemma_field_prefix(3, x.path, y.path, a4, b4);
    digest::lemma_field_prefix(4, seq![x.status], seq![y.status], a5, b5);
    assert(seq![x.status][0] == seq![y.status][0]);
    digest::lemma_field_prefix(5, x.old, y.old, a6, b6);
    digest::lemma_field_prefix(6, x.new, y.new, ra, rb);
}

#[verifier::spinoff_prover]
proof fn lemma_records_bytes_injective(a: Seq<RecordModel>, b: Seq<RecordModel>)
    requires
        a.len() == b.len(),
        measured(a),
        measured(b),
        records_bytes(a) == records_bytes(b),
    ensures
        a == b,
    decreases a.len(),
{
    if a.len() > 0 {
        lemma_records_bytes_front(a);
        lemma_records_bytes_front(b);
        lemma_record_prefix(
            a[0],
            b[0],
            records_bytes(a.drop_first()),
            records_bytes(b.drop_first()),
        );
        lemma_records_bytes_injective(a.drop_first(), b.drop_first());
        assert(a =~= seq![a[0]] + a.drop_first());
        assert(b =~= seq![b[0]] + b.drop_first());
    }
    assert(a =~= b);
}

/// The encoding is unambiguous: the bytes that an identity is the digest of
/// determine the records, and so every changed path with both its endpoints.
pub proof fn law_changeset_is_unambiguous(a: Seq<RecordModel>, b: Seq<RecordModel>)
    requires
        a.len() <= u64::MAX,
        b.len() <= u64::MAX,
        measured(a),
        measured(b),
        changeset_payload(a) == changeset_payload(b),
    ensures
        a == b,
{
    let alg = encode_utf8("cvc.changeset/v1"@);
    let na = digest::be64(a.len() as u64);
    let nb = digest::be64(b.len() as u64);
    reveal_strlit("cvc.changeset/v1");
    is_ascii_chars_encode_utf8("cvc.changeset/v1"@);
    digest::lemma_field_prefix(
        1,
        alg,
        alg,
        digest::field(2, na) + records_bytes(a),
        digest::field(2, nb) + records_bytes(b),
    );
    digest::lemma_field_prefix(2, na, nb, records_bytes(a), records_bytes(b));
    digest::lemma_be64_injective(a.len() as u64, b.len() as u64);
    lemma_records_bytes_injective(a, b);
}

/// The identity does not depend on the order in which the changes are listed.
pub proof fn law_changeset_ignores_order(a: Seq<DeltaModel>, b: Seq<DeltaModel>)
    requires
        a.to_multiset() == b.to_multiset(),
        changeset_bytes(a) is Ok,
    ensures
        changeset_bytes(a) == changeset_bytes(b),
{
    let ra = records_of(a, a.len())->Ok_0;
    let rb = records_of(b, b.len())->Ok_0;
    lemma_records_mapped(a, a.len());
    to_multiset_len(a);
    to_multiset_len(b);
    assert forall|i: int| 0 <= i < b.len() implies record_of(#[trigger] b[i]) is Ok by {
        broadcast use group_to_multiset_ensures;

        assert(b.contains(b[i]));
        assert(b.to_multiset().count(b[i]) > 0);
        assert(a.contains(b[i]));
    }
    lemma_records_found(b, b.len());
    lemma_records_multiset(a, b);
    lemma_record_order();
    ra.lemma_sort_by_ensures(record_le());
    rb.lemma_sort_by_ensures(record_le());
    lemma_sorted_unique(ra.sort_by(record_le()), rb.sort_by(record_le()), record_le());
}

pub proof fn lemma_records_mapped(deltas: Seq<DeltaModel>, k: nat)
    requires
        k <= deltas.len(),
        records_of(deltas, k) is Ok,
    ensures
        records_of(deltas, k)->Ok_0 == deltas.take(k as int).map_values(
            |d: DeltaModel| record_of(d)->Ok_0,
        ),
        forall|i: int| 0 <= i < k ==> record_of(#[trigger] deltas[i]) is Ok,
    decreases k,
{
    let f = |d: DeltaModel| record_of(d)->Ok_0;
    if k == 0 {
        assert(deltas.take(0).map_values(f) =~= Seq::<RecordModel>::empty());
    } else {
        lemma_records_mapped(deltas, (k - 1) as nat);
        assert(deltas.take(k as int).map_values(f) =~= deltas.take(k - 1).map_values(f).push(
            f(deltas[k - 1]),
        ));
    }
}

pub proof fn lemma_records_found(deltas: Seq<DeltaModel>, k: nat)
    requires
        k <= deltas.len(),
        forall|i: int| 0 <= i < k ==> record_of(#[trigger] deltas[i]) is Ok,
    ensures
        records_of(deltas, k) is Ok,
    decreases k,
{
    if k > 0 {
        lemma_records_found(deltas, (k - 1) as nat);
        assert(record_of(deltas[k - 1]) is Ok);
    }
}

proof fn lemma_mapped_multiset(
    a: Seq<DeltaModel>,
    b: Seq<DeltaModel>,
    f: spec_fn(DeltaModel) -> RecordModel,
)
    requires
        a.to_multiset() == b.to_multiset(),
    ensures
        a.map_values(f).to_multiset() == b.map_values(f).to_multiset(),
    decreases a.len(),
{
    broadcast use group_to_multiset_ensures;
    broadcast use vstd::multiset::group_multiset_axioms;

    to_multiset_len(a);
    to_multiset_len(b);
    if a.len() == 0 {
        assert(a.map_values(f) =~= b.map_values(f));
    } else {
        let x = a.last();
        assert(a.contains(x));
        assert(a.to_multiset().count(x) > 0);
        assert(b.contains(x));
        let j = choose|j: int| 0 <= j < b.len() && b[j] == x;
        let shorter = a.drop_last();
        let rest = b.remove(j);
        assert(shorter =~= a.remove(a.len() - 1));
        to_multiset_remove(a, a.len() - 1);
        to_multiset_remove(b, j);
        lemma_mapped_multiset(shorter, rest, f);
        assert(a.map_values(f) =~= shorter.map_values(f).push(f(x)));
        to_multiset_build(shorter.map_values(f), f(x));
        assert(b.map_values(f) =~= rest.map_values(f).insert(j, f(x)));
        to_multiset_insert(rest.map_values(f), j, f(x));
    }
}

proof fn lemma_records_multiset(a: Seq<DeltaModel>, b: Seq<DeltaModel>)
    requires
        a.to_multiset() == b.to_multiset(),
        records_of(a, a.len()) is Ok,
        records_of(b, b.len()) is Ok,
    ensures
        records_of(a, a.len())->Ok_0.to_multiset() == records_of(b, b.len())->Ok_0.to_multiset(),
{
    let f = |d: DeltaModel| record_of(d)->Ok_0;
    lemma_records_mapped(a, a.len());
    lemma_records_mapped(b, b.len());
    assert(a.take(a.len() as int) =~= a);
    assert(b.take(b.len() as int) =~= b);
    lemma_mapped_multiset(a, b, f);
}

} // verus!
