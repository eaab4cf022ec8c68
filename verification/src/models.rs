//! The records of the system and the identifiers derived from their contents.

use crate::digest;
use crate::digest::{
    decimal_text, hex_digest, lower_hex, put_bytes, put_count, put_text, put_text_before,
    put_texts,
};
use crate::order;
use crate::order::{is_sorted, sort_texts};
use crate::text::text_equal;
use vstd::prelude::*;
use vstd::string::*;
use vstd::utf8::*;

verus! {

pub const MAX_RANGE_COMMITS: usize = 2048;

/// A moment: seconds since the Unix epoch and nanoseconds within the second.
#[derive(Debug, Clone, Copy, PartialEq, Eq, Structural)]
pub struct Timestamp {
    pub seconds: i64,
    pub nanos: u32,
}

/// The moment that an RFC 3339 text names, in seconds since the Unix epoch and
/// nanoseconds, or the words that say why it names none.
pub uninterp spec fn parsed_rfc3339(text: Seq<char>) -> Result<(i64, u32), Seq<char>>;

/// Reads an RFC 3339 text.
///
/// Calls `chrono::DateTime::parse_from_rfc3339`. Which texts it accepts, which
/// moment they name and which words its error shows depends on the text alone and
/// is named [`parsed_rfc3339`].
#[verifier::external_body]
fn read_rfc3339(text: &str) -> (r: Result<(i64, u32), String>)
    ensures
        match parsed_rfc3339(text@) {
            Ok(moment) => r matches Ok(m) && m == moment,
            Err(words) => r matches Err(e) && e@ == words,
        },
{
    match chrono::DateTime::parse_from_rfc3339(text) {
        Ok(moment) => Ok((moment.timestamp(), moment.timestamp_subsec_nanos())),
        Err(error) => Err(error.to_string()),
    }
}

/// The moment that an RFC 3339 text names, or why it names none.
pub open spec fn moment_of(text: Seq<char>) -> Result<Timestamp, Seq<char>> {
    match parsed_rfc3339(text) {
        Ok((seconds, nanos)) => Ok(Timestamp { seconds, nanos }),
        Err(words) => Err(words),
    }
}

impl Timestamp {
    /// Reads an RFC 3339 text.
    pub fn from_rfc3339(text: &str) -> (r: Result<Self, String>)
        ensures
            match moment_of(text@) {
                Ok(moment) => r matches Ok(m) && m == moment,
                Err(words) => r matches Err(e) && e@ == words,
            },
    {
        match read_rfc3339(text) {
            Ok((seconds, nanos)) => Ok(Timestamp { seconds, nanos }),
            Err(words) => Err(words),
        }
    }
}

/// Why a UUID could not be read.
#[derive(Debug, Clone, Copy, PartialEq, Eq, Structural)]
pub enum IdError {
    Malformed,
}

#[verifier::external_type_specification]
#[verifier::external_body]
pub struct ExUuidError(uuid::Error);

/// The sixteen bytes of a UUID, the most significant first.
pub open spec fn uuid_bytes(v: u128) -> Seq<u8> {
    Seq::new(16, |i: int| ((v >> ((8 * (15 - i)) as u128)) & 0xff) as u8)
}

/// The canonical text of a UUID: lower-case hexadecimal in groups of eight,
/// four, four, four and twelve digits, separated by hyphens.
pub open spec fn uuid_text(v: u128) -> Seq<char> {
    let h = digest::hex_text(uuid_bytes(v));
    h.subrange(0, 8) + seq!['-'] + h.subrange(8, 12) + seq!['-'] + h.subrange(12, 16) + seq!['-']
        + h.subrange(16, 20) + seq!['-'] + h.subrange(20, 32)
}

/// The canonical text determines the UUID.
pub proof fn lemma_uuid_text_injective(a: u128, b: u128)
    requires
        uuid_text(a) == uuid_text(b),
    ensures
        a == b,
{
    let s = uuid_text(a);
    let t = uuid_text(b);
    let x = digest::hex_text(uuid_bytes(a));
    let y = digest::hex_text(uuid_bytes(b));
    assert(x =~= s.subrange(0, 8) + s.subrange(9, 13) + s.subrange(14, 18) + s.subrange(19, 23)
        + s.subrange(24, 36));
    assert(y =~= t.subrange(0, 8) + t.subrange(9, 13) + t.subrange(14, 18) + t.subrange(19, 23)
        + t.subrange(24, 36));
    digest::lemma_hex_text_injective(uuid_bytes(a), uuid_bytes(b));
    let p = uuid_bytes(a);
    let q = uuid_bytes(b);
    assert(p[0] == q[0] && p[1] == q[1] && p[2] == q[2] && p[3] == q[3]);
    assert(p[4] == q[4] && p[5] == q[5] && p[6] == q[6] && p[7] == q[7]);
    assert(p[8] == q[8] && p[9] == q[9] && p[10] == q[10] && p[11] == q[11]);
    assert(p[12] == q[12] && p[13] == q[13] && p[14] == q[14] && p[15] == q[15]);
    assert(a == b) by (bit_vector)
        requires
            ((a >> 120u128) & 0xff) as u8 == ((b >> 120u128) & 0xff) as u8,
            ((a >> 112u128) & 0xff) as u8 == ((b >> 112u128) & 0xff) as u8,
            ((a >> 104u128) & 0xff) as u8 == ((b >> 104u128) & 0xff) as u8,
            ((a >> 96u128) & 0xff) as u8 == ((b >> 96u128) & 0xff) as u8,
            ((a >> 88u128) & 0xff) as u8 == ((b >> 88u128) & 0xff) as u8,
            ((a >> 80u128) & 0xff) as u8 == ((b >> 80u128) & 0xff) as u8,
            ((a >> 72u128) & 0xff) as u8 == ((b >> 72u128) & 0xff) as u8,
            ((a >> 64u128) & 0xff) as u8 == ((b >> 64u128) & 0xff) as u8,
            ((a >> 56u128) & 0xff) as u8 == ((b >> 56u128) & 0xff) as u8,
            ((a >> 48u128) & 0xff) as u8 == ((b >> 48u128) & 0xff) as u8,
            ((a >> 40u128) & 0xff) as u8 == ((b >> 40u128) & 0xff) as u8,
            ((a >> 32u128) & 0xff) as u8 == ((b >> 32u128) & 0xff) as u8,
            ((a >> 24u128) & 0xff) as u8 == ((b >> 24u128) & 0xff) as u8,
            ((a >> 16u128) & 0xff) as u8 == ((b >> 16u128) & 0xff) as u8,
            ((a >> 8u128) & 0xff) as u8 == ((b >> 8u128) & 0xff) as u8,
            ((a >> 0u128) & 0xff) as u8 == ((b >> 0u128) & 0xff) as u8,
    ;
}

/// What the UUID grammar makes of a text.
pub uninterp spec fn parsed_uuid(text: Seq<char>) -> Option<u128>;

/// Reads a UUID.
///
/// Calls `uuid::Uuid::parse_str`. Which texts it accepts and what they stand
/// for depends on the text alone and is named [`parsed_uuid`].
#[verifier::external_body]
pub(crate) fn parse_uuid(text: &str) -> (r: Result<u128, uuid::Error>)
    ensures
        r is Ok <==> parsed_uuid(text@) is Some,
        r matches Ok(v) ==> parsed_uuid(text@) == Some(v),
{
    uuid::Uuid::parse_str(text).map(|v| v.as_u128())
}

/// Writes a UUID.
///
/// Calls `to_string` on a `uuid::Uuid`, which gives the canonical hyphenated
/// lower-case text; the parser of the same crate reads that text back.
#[verifier::external_body]
pub(crate) fn format_uuid(v: u128) -> (r: String)
    ensures
        r@ == uuid_text(v),
        parsed_uuid(r@) == Some(v),
{
    uuid::Uuid::from_u128(v).to_string()
}

/// A fresh random UUID.
///
/// Calls `uuid::Uuid::new_v4`. The value is random; of every outcome it holds
/// that the version is four and the variant is that of RFC 4122.
#[verifier::external_body]
pub(crate) fn random_uuid() -> (r: u128)
    ensures
        (r >> 76) & 0xf == 4,
        (r >> 62) & 3 == 2,
{
    uuid::Uuid::new_v4().as_u128()
}

/// The identity of one interaction.
#[derive(Debug, Clone, Copy, PartialEq, Eq, Hash, Structural)]
pub struct InteractionId {
    pub value: u128,
}

impl InteractionId {
    /// The canonical text of the identifier.
    pub open spec fn text(self) -> Seq<char> {
        uuid_text(self.value)
    }

    /// A fresh identifier.
    pub fn new() -> (r: Self)
        ensures
            (r.value >> 76) & 0xf == 4,
            (r.value >> 62) & 3 == 2,
    {
        InteractionId { value: random_uuid() }
    }

    pub fn from_uuid(value: u128) -> (r: Self)
        ensures
            r.value == value,
    {
        InteractionId { value }
    }

    /// The canonical text of the identifier.
    pub fn as_str(&self) -> (r: String)
        ensures
            r@ == self.text(),
            parsed_uuid(r@) == Some(self.value),
    {
        format_uuid(self.value)
    }

    /// Reads an identifier in any of the UUID notations.
    pub fn from_str(s: &str) -> (r: Result<Self, IdError>)
        ensures
            match parsed_uuid(s@) {
                Some(v) => r == Ok::<Self, IdError>(InteractionId { value: v }),
                None => r == Err::<Self, IdError>(IdError::Malformed),
            },
    {
        match parse_uuid(s) {
            Ok(value) => Ok(InteractionId { value }),
            Err(_) => Err(IdError::Malformed),
        }
    }
}

impl Default for InteractionId {
    fn default() -> (r: Self)
        ensures
            (r.value >> 76) & 0xf == 4,
            (r.value >> 62) & 3 == 2,
    {
        Self::new()
    }
}

/// The name of a commit.
#[derive(Debug, PartialEq, Eq, Hash)]
pub struct CommitSha {
    pub sha: String,
}

impl View for CommitSha {
    type V = Seq<char>;

    open spec fn view(&self) -> Seq<char> {
        self.sha@
    }
}

impl CommitSha {
    pub fn new(sha: String) -> (r: Self)
        ensures
            r@ == sha@,
            r.sha == sha,
    {
        CommitSha { sha }
    }

    pub fn as_str(&self) -> (r: &str)
        ensures
            r@ == self@,
    {
        self.sha.as_str()
    }

}

impl Clone for CommitSha {
    fn clone(&self) -> (r: Self)
        ensures
            r == *self,
    {
        CommitSha { sha: self.sha.clone() }
    }
}

/// The contents of an optional text.
pub open spec fn opt_text(o: Option<String>) -> Option<Seq<char>> {
    match o {
        Some(s) => Some(s@),
        None => None,
    }
}

/// The contents of an optional commit name.
pub open spec fn opt_sha(o: Option<CommitSha>) -> Option<Seq<char>> {
    match o {
        Some(s) => Some(s@),
        None => None,
    }
}

/// Whether two optional texts agree.
pub fn opt_text_equal(a: &Option<String>, b: &Option<String>) -> (r: bool)
    ensures
        r == (opt_text(*a) == opt_text(*b)),
{
    match (a, b) {
        (Some(x), Some(y)) => *x == *y,
        (None, None) => true,
        _ => false,
    }
}

/// Whether two optional commit names agree.
pub fn opt_sha_equal(a: &Option<CommitSha>, b: &Option<CommitSha>) -> (r: bool)
    ensures
        r == (opt_sha(*a) == opt_sha(*b)),
{
    match (a, b) {
        (Some(x), Some(y)) => x.sha == y.sha,
        (None, None) => true,
        _ => false,
    }
}

/// A copy of an optional text.
pub fn copy_opt_text(a: &Option<String>) -> (r: Option<String>)
    ensures
        r == *a,
{
    match a {
        Some(x) => Some(x.clone()),
        None => None,
    }
}

/// A copy of an optional commit name.
pub fn copy_opt_sha(a: &Option<CommitSha>) -> (r: Option<CommitSha>)
    ensures
        r == *a,
{
    match a {
        Some(x) => Some(x.clone()),
        None => None,
    }
}

/// A copy of a list of texts.
pub fn copy_texts(a: &Vec<String>) -> (r: Vec<String>)
    ensures
        r@ == a@,
{
    let mut out: Vec<String> = Vec::new();
    let mut i: usize = 0;
    while i < a.len()
        invariant
            i <= a.len(),
            out@ == a@.take(i as int),
        decreases a.len() - i,
    {
        out.push(a[i].clone());
        i += 1;
        assert(out@ =~= a@.take(i as int));
    }
    assert(a@.take(a@.len() as int) =~= a@);
    out
}

/// Whether two lists of texts agree.
pub fn texts_equal(a: &Vec<String>, b: &Vec<String>) -> (r: bool)
    ensures
        r == (a.deep_view() == b.deep_view()),
{
    let ghost x = a.deep_view();
    let ghost y = b.deep_view();
    if a.len() != b.len() {
        assert(x.len() != y.len());
        return false;
    }
    let mut i: usize = 0;
    while i < a.len()
        invariant
            i <= a.len(),
            a.len() == b.len(),
            x == a.deep_view(),
            y == b.deep_view(),
            forall|k: int| 0 <= k < i ==> x[k] == y[k],
        decreases a.len() - i,
    {
        assert(x[i as int] == a@[i as int]@ && y[i as int] == b@[i as int]@);
        if a[i] != b[i] {
            return false;
        }
        i += 1;
    }
    assert(x =~= y);
    true
}

#[derive(Debug, Clone, Copy, PartialEq, Eq, Structural)]
pub enum RangeObservationOrigin {
    Explicit,
    PrePush,
}

#[derive(Debug, PartialEq, Eq)]
pub struct RangeMember {
    pub commit_oid: CommitSha,
}

impl Clone for RangeMember {
    fn clone(&self) -> (r: Self)
        ensures
            r == *self,
    {
        RangeMember { commit_oid: self.commit_oid.clone() }
    }
}

/// Immutable anchored proof that one ordered commit range has a particular net
/// tree transition. Trust, destination authority, timestamps and source-ref
/// names are observations stored beside this body and are not part of its ID.
#[derive(Debug, PartialEq, Eq)]
pub struct RangeEvidence {
    pub range_id: String,
    pub format: String,
    pub version: u8,
    pub repository_identity: String,
    pub object_format: String,
    pub base_oid: CommitSha,
    pub tip_oid: CommitSha,
    pub base_tree_oid: String,
    pub result_tree_oid: String,
    pub commits: Vec<RangeMember>,
    pub changeset_algorithm: String,
    pub changeset_digest: String,
}

/// The contents of range evidence.
#[verifier::ext_equal]
pub struct RangeModel {
    pub range_id: Seq<char>,
    pub format: Seq<char>,
    pub version: u8,
    pub repository_identity: Seq<char>,
    pub object_format: Seq<char>,
    pub base_oid: Seq<char>,
    pub tip_oid: Seq<char>,
    pub base_tree_oid: Seq<char>,
    pub result_tree_oid: Seq<char>,
    pub commits: Seq<Seq<char>>,
    pub changeset_algorithm: Seq<char>,
    pub changeset_digest: Seq<char>,
}

/// The commit names of a list of members.
pub open spec fn member_names(s: Seq<RangeMember>) -> Seq<Seq<char>> {
    s.map_values(|m: RangeMember| m.commit_oid@)
}

impl View for RangeEvidence {
    type V = RangeModel;

    open spec fn view(&self) -> RangeModel {
        RangeModel {
            range_id: self.range_id@,
            format: self.format@,
            version: self.version,
            repository_identity: self.repository_identity@,
            object_format: self.object_format@,
            base_oid: self.base_oid@,
            tip_oid: self.tip_oid@,
            base_tree_oid: self.base_tree_oid@,
            result_tree_oid: self.result_tree_oid@,
            commits: member_names(self.commits@),
            changeset_algorithm: self.changeset_algorithm@,
            changeset_digest: self.changeset_digest@,
        }
    }
}

impl Clone for RangeEvidence {
    fn clone(&self) -> (r: Self)
        ensures
            r@ == self@,
    {
        let mut commits: Vec<RangeMember> = Vec::new();
        let mut i: usize = 0;
        while i < self.commits.len()
            invariant
                i <= self.commits.len(),
                commits@ == self.commits@.take(i as int),
            decreases self.commits.len() - i,
        {
            commits.push(self.commits[i].clone());
            i += 1;
            assert(commits@ =~= self.commits@.take(i as int));
        }
        assert(self.commits@.take(self.commits@.len() as int) =~= self.commits@);
        RangeEvidence {
            range_id: self.range_id.clone(),
            format: self.format.clone(),
            version: self.version,
            repository_identity: self.repository_identity.clone(),
            object_format: self.object_format.clone(),
            base_oid: self.base_oid.clone(),
            tip_oid: self.tip_oid.clone(),
            base_tree_oid: self.base_tree_oid.clone(),
            result_tree_oid: self.result_tree_oid.clone(),
            commits,
            changeset_algorithm: self.changeset_algorithm.clone(),
            changeset_digest: self.changeset_digest.clone(),
        }
    }
}

/// The bytes that the identity of range evidence is the digest of.
pub open spec fn range_payload(m: RangeModel) -> Seq<u8> {
    encode_utf8("cvc.range-evidence/canonical/v1\0"@) + (digest::text_field(1, m.format) + (digest::text_field(
        2,
        digest::decimal(m.version as nat),
    ) + (digest::text_field(3, m.repository_identity) + (digest::text_field(4, m.object_format) + (digest::text_field(
        5,
        m.base_oid,
    ) + (digest::text_field(6, m.tip_oid) + (digest::text_field(7, m.base_tree_oid) + (digest::text_field(
        8,
        m.result_tree_oid,
    ) + (digest::text_field(9, m.changeset_algorithm) + (digest::text_field(10, m.changeset_digest) + (digest::count_field(
        11,
        m.commits.len(),
    ) + digest::text_fields(12, m.commits))))))))))))
}

/// The identity that the contents of range evidence give it.
pub open spec fn range_identity(m: RangeModel) -> Seq<char> {
    digest::digest_text(range_payload(m))
}

/// No element occurs twice.
pub open spec fn all_distinct(s: Seq<Seq<char>>) -> bool {
    forall|i: int, j: int| 0 <= i < j < s.len() ==> #[trigger] s[i] != #[trigger] s[j]
}

/// Range evidence that carries its own identity and is well formed.
pub open spec fn valid_range(m: RangeModel) -> bool {
    &&& m.range_id == range_identity(m)
    &&& digest::is_lower_hex(m.range_id, 64)
    &&& m.format == "cvc.range-evidence/v1"@
    &&& m.version == 1
    &&& m.object_format == "sha1"@
    &&& digest::is_lower_hex(m.repository_identity, 64)
    &&& digest::is_lower_hex(m.base_oid, 40)
    &&& digest::is_lower_hex(m.tip_oid, 40)
    &&& digest::is_lower_hex(m.base_tree_oid, 40)
    &&& digest::is_lower_hex(m.result_tree_oid, 40)
    &&& 0 < m.commits.len() <= MAX_RANGE_COMMITS
    &&& forall|i: int| 0 <= i < m.commits.len() ==> digest::is_lower_hex(#[trigger] m.commits[i], 40)
    &&& all_distinct(m.commits)
    &&& m.changeset_algorithm == "cvc.changeset/v1"@
    &&& digest::is_lower_hex(m.changeset_digest, 64)
}

/// The commit names of the members, as texts.
fn member_texts(members: &Vec<RangeMember>) -> (r: Vec<String>)
    ensures
        r.deep_view() == member_names(members@),
{
    let mut out: Vec<String> = Vec::new();
    let mut i: usize = 0;
    while i < members.len()
        invariant
            i <= members.len(),
            out.deep_view() == member_names(members@).take(i as int),
        decreases members.len() - i,
    {
        let ghost before = out.deep_view();
        out.push(members[i].commit_oid.sha.clone());
        assert(out.deep_view() =~= before.push(members@[i as int].commit_oid@));
        assert(member_names(members@)[i as int] == members@[i as int].commit_oid@);
        i += 1;
        assert(out.deep_view() =~= member_names(members@).take(i as int));
    }
    assert(member_names(members@).take(members@.len() as int) =~= member_names(members@));
    out
}

/// Whether the list holds no text twice.
pub fn texts_distinct(list: &Vec<String>) -> (r: bool)
    ensures
        r == all_distinct(list.deep_view()),
{
    let ghost s = list.deep_view();
    let mut i: usize = 0;
    while i < list.len()
        invariant
            i <= list.len(),
            s == list.deep_view(),
            all_distinct(s.take(i as int)),
        decreases list.len() - i,
    {
        let mut j: usize = 0;
        assert(s[i as int] == list@[i as int]@);
        while j < i
            invariant
                j <= i < list.len(),
                s == list.deep_view(),
                forall|k: int| 0 <= k < j ==> s[k] != s[i as int],
            decreases i - j,
        {
            assert(s[i as int] == list@[i as int]@ && s[j as int] == list@[j as int]@);
            if list[j] == list[i] {
                return false;
            }
            j += 1;
        }
        proof {
            let t = s.take(i + 1);
            assert forall|a: int, b: int| 0 <= a < b < t.len() implies #[trigger] t[a]
                != #[trigger] t[b] by {
                if b < i {
                    assert(s.take(i as int)[a] != s.take(i as int)[b]);
                }
            }
        }
        i += 1;
    }
    assert(s.take(s.len() as int) =~= s);
    true
}

impl RangeEvidence {
    /// Whether two records agree in every field.
    pub fn same(&self, other: &Self) -> (r: bool)
        ensures
            r == (self@ == other@),
    {
        self.range_id == other.range_id && self.format == other.format && self.version
            == other.version && self.repository_identity == other.repository_identity
            && self.object_format == other.object_format && self.base_oid.sha == other.base_oid.sha
            && self.tip_oid.sha == other.tip_oid.sha && self.base_tree_oid == other.base_tree_oid
            && self.result_tree_oid == other.result_tree_oid && texts_equal(
            &member_texts(&self.commits),
            &member_texts(&other.commits),
        ) && self.changeset_algorithm == other.changeset_algorithm && self.changeset_digest
            == other.changeset_digest
    }

    /// The identity computed from the contents.
    pub fn canonical_id(&self) -> (r: String)
        ensures
            r@ == range_identity(self@),
            digest::is_lower_hex(r@, 64),
    {
        let ghost m = self@;
        let names = member_texts(&self.commits);
        let ghost t12 = digest::text_fields(12, m.commits);
        let ghost t11 = digest::count_field(11, m.commits.len()) + t12;
        let ghost t10 = digest::text_field(10, m.changeset_digest) + t11;
        let ghost t9 = digest::text_field(9, m.changeset_algorithm) + t10;
        let ghost t8 = digest::text_field(8, m.result_tree_oid) + t9;
        let ghost t7 = digest::text_field(7, m.base_tree_oid) + t8;
        let ghost t6 = digest::text_field(6, m.tip_oid) + t7;
        let ghost t5 = digest::text_field(5, m.base_oid) + t6;
        let ghost t4 = digest::text_field(4, m.object_format) + t5;
        let ghost t3 = digest::text_field(3, m.repository_identity) + t4;
        let ghost t2 = digest::text_field(2, digest::decimal(m.version as nat)) + t3;
        let ghost t1 = digest::text_field(1, m.format) + t2;
        let mut h: Vec<u8> = Vec::new();
        put_bytes(&mut h, "cvc.range-evidence/canonical/v1\0".as_bytes());
        assert(h@ =~= encode_utf8("cvc.range-evidence/canonical/v1\0"@));
        put_text_before(&mut h, 1, self.format.as_str(), Ghost(t2));
        put_text_before(&mut h, 2, decimal_text(self.version as u64).as_str(), Ghost(t3));
        put_text_before(&mut h, 3, self.repository_identity.as_str(), Ghost(t4));
        put_text_before(&mut h, 4, self.object_format.as_str(), Ghost(t5));
        put_text_before(&mut h, 5, self.base_oid.as_str(), Ghost(t6));
        put_text_before(&mut h, 6, self.tip_oid.as_str(), Ghost(t7));
        put_text_before(&mut h, 7, self.base_tree_oid.as_str(), Ghost(t8));
        put_text_before(&mut h, 8, self.result_tree_oid.as_str(), Ghost(t9));
        put_text_before(&mut h, 9, self.changeset_algorithm.as_str(), Ghost(t10));
        put_text_before(&mut h, 10, self.changeset_digest.as_str(), Ghost(t11));
        proof {
            digest::lemma_concat(h@, digest::count_field(11, m.commits.len()), t12);
        }
        put_count(&mut h, 11, self.commits.len());
        put_texts(&mut h, 12, &names);
        assert(h@ == range_payload(self@));
        hex_digest(h.as_slice())
    }

    /// Whether the evidence carries its own identity and is well formed.
    pub fn verify_id(&self) -> (r: bool)
        ensures
            r == valid_range(self@),
    {
        if !text_equal(self.range_id.as_str(), self.canonical_id().as_str()) {
            return false;
        }
        if !(lower_hex(self.range_id.as_str(), 64) && text_equal(
            self.format.as_str(),
            "cvc.range-evidence/v1",
        ) && self.version == 1 && text_equal(self.object_format.as_str(), "sha1") && lower_hex(
            self.repository_identity.as_str(),
            64,
        ) && lower_hex(self.base_oid.as_str(), 40) && lower_hex(self.tip_oid.as_str(), 40)
            && lower_hex(self.base_tree_oid.as_str(), 40) && lower_hex(
            self.result_tree_oid.as_str(),
            40,
        )) {
            return false;
        }
        if self.commits.len() == 0 || self.commits.len() > MAX_RANGE_COMMITS {
            return false;
        }
        let names = member_texts(&self.commits);
        let ghost s = self@.commits;
        let mut i: usize = 0;
        while i < names.len()
            invariant
                i <= names.len(),
                s == names.deep_view(),
                s == self@.commits,
                forall|k: int| 0 <= k < i ==> digest::is_lower_hex(#[trigger] s[k], 40),
            decreases names.len() - i,
        {
            assert(s[i as int] == names@[i as int]@);
            if !lower_hex(names[i].as_str(), 40) {
                assert(!digest::is_lower_hex(self@.commits[i as int], 40));
                return false;
            }
            i += 1;
        }
        texts_distinct(&names) && text_equal(self.changeset_algorithm.as_str(), "cvc.changeset/v1")
            && lower_hex(self.changeset_digest.as_str(), 64)
    }
}

/// Closed relation vocabulary.  New relation kinds require a format change, not
/// an arbitrary string supplied by a peer.
#[derive(Debug, Clone, Copy, PartialEq, Eq, Structural)]
pub enum DerivationRelation {
    Generated,
    Temporal,
    Verified,
    RewriteExact,
    SquashExact,
}

#[derive(Debug, Clone, Copy, PartialEq, Eq, Structural)]
pub enum EvidenceKind {
    LocallyObserved,
    ImportedLegacy,
    RemoteAssertion,
}

#[derive(Debug, Clone, Copy, PartialEq, Eq, Structural)]
pub struct Evidence {
    pub version: u8,
    pub kind: EvidenceKind,
}

#[derive(Debug, Clone, Copy, PartialEq, Eq, Structural)]
pub enum DerivationOrigin {
    LocalHook,
    LocalLinker,
    RemoteAssertion,
    LegacyImport,
}

impl DerivationRelation {
    /// The name of the relation.
    pub open spec fn name(self) -> Seq<char> {
        match self {
            DerivationRelation::Generated => "generated"@,
            DerivationRelation::Temporal => "temporal"@,
            DerivationRelation::Verified => "verified"@,
            DerivationRelation::RewriteExact => "rewrite_exact"@,
            DerivationRelation::SquashExact => "squash_exact"@,
        }
    }
}

impl EvidenceKind {
    /// The name of the kind of evidence.
    pub open spec fn name(self) -> Seq<char> {
        match self {
            EvidenceKind::LocallyObserved => "locally_observed"@,
            EvidenceKind::ImportedLegacy => "imported_legacy"@,
            EvidenceKind::RemoteAssertion => "remote_assertion"@,
        }
    }
}

impl DerivationOrigin {
    /// The name of the origin.
    pub open spec fn name(self) -> Seq<char> {
        match self {
            DerivationOrigin::LocalHook => "local_hook"@,
            DerivationOrigin::LocalLinker => "local_linker"@,
            DerivationOrigin::RemoteAssertion => "remote_assertion"@,
            DerivationOrigin::LegacyImport => "legacy_import"@,
        }
    }
}

/// The name of a relation.
pub fn relation_name(r: DerivationRelation) -> (s: &'static str)
    ensures
        s@ == r.name(),
{
    match r {
        DerivationRelation::Generated => "generated",
        DerivationRelation::Temporal => "temporal",
        DerivationRelation::Verified => "verified",
        DerivationRelation::RewriteExact => "rewrite_exact",
        DerivationRelation::SquashExact => "squash_exact",
    }
}

/// The name of a kind of evidence.
pub fn evidence_name(k: EvidenceKind) -> (s: &'static str)
    ensures
        s@ == k.name(),
{
    match k {
        EvidenceKind::LocallyObserved => "locally_observed",
        EvidenceKind::ImportedLegacy => "imported_legacy",
        EvidenceKind::RemoteAssertion => "remote_assertion",
    }
}

/// The name of an origin.
pub fn origin_name(o: DerivationOrigin) -> (s: &'static str)
    ensures
        s@ == o.name(),
{
    match o {
        DerivationOrigin::LocalHook => "local_hook",
        DerivationOrigin::LocalLinker => "local_linker",
        DerivationOrigin::RemoteAssertion => "remote_assertion",
        DerivationOrigin::LegacyImport => "legacy_import",
    }
}

/// Immutable, content-addressed explanation of why an interaction is related
/// to an artifact.  `event_id` is deliberately independent of wall time.
#[derive(Debug, PartialEq, Eq)]
pub struct DerivationEvent {
    pub event_id: String,
    pub interaction_id: InteractionId,
    pub target_commit: CommitSha,
    pub relation: DerivationRelation,
    pub evidence: Evidence,
    pub origin: DerivationOrigin,
    pub source_event_ids: Vec<String>,
    pub old_oid: Option<CommitSha>,
    pub new_oid: Option<CommitSha>,
    pub range_id: Option<String>,
    pub linked_by: Option<String>,
}

/// The contents of a derivation event.
#[verifier::ext_equal]
pub struct EventModel {
    pub event_id: Seq<char>,
    pub interaction_id: InteractionId,
    pub target_commit: Seq<char>,
    pub relation: DerivationRelation,
    pub evidence: Evidence,
    pub origin: DerivationOrigin,
    pub sources: Seq<Seq<char>>,
    pub old_oid: Option<Seq<char>>,
    pub new_oid: Option<Seq<char>>,
    pub range_id: Option<Seq<char>>,
    pub linked_by: Option<Seq<char>>,
}

impl View for DerivationEvent {
    type V = EventModel;

    open spec fn view(&self) -> EventModel {
        EventModel {
            event_id: self.event_id@,
            interaction_id: self.interaction_id,
            target_commit: self.target_commit@,
            relation: self.relation,
            evidence: self.evidence,
            origin: self.origin,
            sources: self.source_event_ids.deep_view(),
            old_oid: opt_sha(self.old_oid),
            new_oid: opt_sha(self.new_oid),
            range_id: opt_text(self.range_id),
            linked_by: opt_text(self.linked_by),
        }
    }
}

/// The encoding of an optional field: the tag, whether there is a value, and the value.
pub open spec fn optional_field(tag: u8, value: Option<Seq<char>>) -> Seq<u8> {
    match value {
        Some(v) => seq![tag, 1u8] + digest::text_field(tag, v),
        None => seq![tag, 0u8],
    }
}

/// The bytes that the identity of a derivation event is the digest of.
pub open spec fn event_payload(m: EventModel) -> Seq<u8> {
    let sources = order::sorted_set(m.sources);
    encode_utf8("cvc.derivation-event/canonical/v2\0"@) + (digest::text_field(1, m.interaction_id.text())
        + (digest::text_field(2, m.target_commit) + (digest::text_field(3, m.relation.name()) + (digest::text_field(
        4,
        digest::decimal(m.evidence.version as nat),
    ) + (digest::text_field(5, m.evidence.kind.name()) + (digest::text_field(6, m.origin.name()) + (digest::count_field(
        7,
        sources.len(),
    ) + (digest::text_fields(8, sources) + (optional_field(9, m.old_oid) + (optional_field(10, m.new_oid) + (
    optional_field(11, m.range_id) + optional_field(12, m.linked_by))))))))))))
}

/// The identity that the contents of a derivation event give it.
pub open spec fn event_identity(m: EventModel) -> Seq<char> {
    digest::digest_text(event_payload(m))
}

/// Appends an optional field.
fn put_optional(out: &mut Vec<u8>, tag: u8, value: &Option<String>)
    ensures
        final(out)@ == old(out)@ + optional_field(tag, opt_text(*value)),
{
    let ghost start = out@;
    out.push(tag);
    match value {
        Some(v) => {
            out.push(1);
            put_text(out, tag, v.as_str());
        },
        None => {
            out.push(0);
        },
    }
    assert(out@ =~= start + optional_field(tag, opt_text(*value)));
}

/// Appends an optional commit name.
fn put_optional_sha(out: &mut Vec<u8>, tag: u8, value: &Option<CommitSha>)
    ensures
        final(out)@ == old(out)@ + optional_field(tag, opt_sha(*value)),
{
    let ghost start = out@;
    out.push(tag);
    match value {
        Some(v) => {
            out.push(1);
            put_text(out, tag, v.as_str());
        },
        None => {
            out.push(0);
        },
    }
    assert(out@ =~= start + optional_field(tag, opt_sha(*value)));
}

impl Clone for DerivationEvent {
    fn clone(&self) -> (r: Self)
        ensures
            r@ == self@,
    {
        DerivationEvent {
            event_id: self.event_id.clone(),
            interaction_id: self.interaction_id,
            target_commit: self.target_commit.clone(),
            relation: self.relation,
            evidence: self.evidence,
            origin: self.origin,
            source_event_ids: copy_texts(&self.source_event_ids),
            old_oid: copy_opt_sha(&self.old_oid),
            new_oid: copy_opt_sha(&self.new_oid),
            range_id: copy_opt_text(&self.range_id),
            linked_by: copy_opt_text(&self.linked_by),
        }
    }
}

impl DerivationEvent {
    /// Whether the sources stand in ascending order, each once.
    pub fn sources_are_canonical(&self) -> (r: bool)
        ensures
            r == order::strictly_sorted(self@.sources),
    {
        is_sorted(&self.source_event_ids)
    }

    /// Domain separated, unambiguous length-prefixed canonical payload.
    pub fn canonical_id(&self) -> (r: String)
        ensures
            r@ == event_identity(self@),
            digest::is_lower_hex(r@, 64),
    {
        let ghost m = self@;
        let sources = sort_texts(&self.source_event_ids);
        let ghost ss = order::sorted_set(m.sources);
        let ghost t12 = optional_field(12, m.linked_by);
        let ghost t11 = optional_field(11, m.range_id) + t12;
        let ghost t10 = optional_field(10, m.new_oid) + t11;
        let ghost t9 = optional_field(9, m.old_oid) + t10;
        let ghost t8 = digest::text_fields(8, ss) + t9;
        let ghost t7 = digest::count_field(7, ss.len()) + t8;
        let ghost t6 = digest::text_field(6, m.origin.name()) + t7;
        let ghost t5 = digest::text_field(5, m.evidence.kind.name()) + t6;
        let ghost t4 = digest::text_field(4, digest::decimal(m.evidence.version as nat)) + t5;
        let ghost t3 = digest::text_field(3, m.relation.name()) + t4;
        let ghost t2 = digest::text_field(2, m.target_commit) + t3;
        let mut h: Vec<u8> = Vec::new();
        put_bytes(&mut h, "cvc.derivation-event/canonical/v2\0".as_bytes());
        assert(h@ =~= encode_utf8("cvc.derivation-event/canonical/v2\0"@));
        put_text_before(&mut h, 1, self.interaction_id.as_str().as_str(), Ghost(t2));
        put_text_before(&mut h, 2, self.target_commit.as_str(), Ghost(t3));
        put_text_before(&mut h, 3, relation_name(self.relation), Ghost(t4));
        put_text_before(&mut h, 4, decimal_text(self.evidence.version as u64).as_str(), Ghost(t5));
        put_text_before(&mut h, 5, evidence_name(self.evidence.kind), Ghost(t6));
        put_text_before(&mut h, 6, origin_name(self.origin), Ghost(t7));
        assert(ss.len() == sources@.len());
        proof {
            digest::lemma_concat(h@, digest::count_field(7, ss.len()), t8);
            digest::lemma_concat(h@ + digest::count_field(7, ss.len()), digest::text_fields(8, ss), t9);
        }
        put_count(&mut h, 7, sources.len());
        put_texts(&mut h, 8, &sources);
        proof {
            digest::lemma_concat(h@, optional_field(9, m.old_oid), t10);
            digest::lemma_concat(h@ + optional_field(9, m.old_oid), optional_field(10, m.new_oid), t11);
            digest::lemma_concat(
                h@ + optional_field(9, m.old_oid) + optional_field(10, m.new_oid),
                optional_field(11, m.range_id),
                t12,
            );
        }
        put_optional_sha(&mut h, 9, &self.old_oid);
        put_optional_sha(&mut h, 10, &self.new_oid);
        put_optional(&mut h, 11, &self.range_id);
        put_optional(&mut h, 12, &self.linked_by);
        assert(h@ == event_payload(self@));
        hex_digest(h.as_slice())
    }

    /// Whether the event carries the identity its contents give it.
    pub fn verify_id(&self) -> (r: bool)
        ensures
            r == (self@.event_id == event_identity(self@)),
    {
        text_equal(self.event_id.as_str(), self.canonical_id().as_str())
    }

    /// Whether two events agree in every field.
    pub fn same(&self, other: &Self) -> (r: bool)
        ensures
            r == (self@ == other@),
    {
        let r = self.event_id == other.event_id && self.interaction_id == other.interaction_id
            && self.target_commit.sha == other.target_commit.sha && self.relation == other.relation
            && self.evidence == other.evidence && self.origin == other.origin && texts_equal(
            &self.source_event_ids,
            &other.source_event_ids,
        ) && opt_sha_equal(&self.old_oid, &other.old_oid) && opt_sha_equal(
            &self.new_oid,
            &other.new_oid,
        ) && opt_text_equal(&self.range_id, &other.range_id) && opt_text_equal(
            &self.linked_by,
            &other.linked_by,
        );
        r
    }
}

/// The intentionally small, non-free-text reason vocabulary used in sync tombstones.
#[derive(Debug, Clone, Copy, PartialEq, Eq, Structural)]
pub enum TombstoneReasonCode {
    UserRequested,
    Security,
    Retention,
}

/// Immutable suppression record.  It deliberately contains no prompt, title, path,
/// or other user supplied content.
#[derive(Debug, PartialEq, Eq)]
pub struct Tombstone {
    pub format: String,
    pub version: u8,
    pub interaction_id: InteractionId,
    pub deleted_at: Timestamp,
    pub reason_code: TombstoneReasonCode,
    pub previous_node_oid: Option<String>,
}

/// The contents of [`Tombstone`].
#[verifier::ext_equal]
pub struct TombstoneModel {
    pub format: Seq<char>,
    pub version: u8,
    pub interaction_id: InteractionId,
    pub deleted_at: Timestamp,
    pub reason_code: TombstoneReasonCode,
    pub previous_node_oid: Option<Seq<char>>,
}

impl View for Tombstone {
    type V = TombstoneModel;

    open spec fn view(&self) -> TombstoneModel {
        TombstoneModel {
            format: self.format@,
            version: self.version,
            interaction_id: self.interaction_id,
            deleted_at: self.deleted_at,
            reason_code: self.reason_code,
            previous_node_oid: opt_text(self.previous_node_oid),
        }
    }
}

impl Clone for Tombstone {
    fn clone(&self) -> (r: Self)
        ensures
            r@ == self@,
    {
        Tombstone {
            format: self.format.clone(),
            version: self.version,
            interaction_id: self.interaction_id,
            deleted_at: self.deleted_at,
            reason_code: self.reason_code,
            previous_node_oid: copy_opt_text(&self.previous_node_oid),
        }
    }
}

impl Tombstone {
    /// Whether two records agree in every field.
    pub fn same(&self, other: &Self) -> (r: bool)
        ensures
            r == (self@ == other@),
    {
        self.format == other.format
            && self.version == other.version
            && self.interaction_id == other.interaction_id
            && self.deleted_at == other.deleted_at
            && self.reason_code == other.reason_code
            && opt_text_equal(&self.previous_node_oid, &other.previous_node_oid)
    }
}

/// The contents of a list of records.
pub open spec fn tombstone_models(s: Seq<Tombstone>) -> Seq<TombstoneModel> {
    s.map_values(|x: Tombstone| x@)
}

impl Tombstone {
    /// The record of a deletion at a moment. The moment is cut to whole seconds,
    /// which is what the store keeps, so that a later projection is stable.
    pub fn new(
        interaction_id: InteractionId,
        reason_code: TombstoneReasonCode,
        previous_node_oid: Option<String>,
        now: Timestamp,
    ) -> (r: Self)
        ensures
            r@ == (TombstoneModel {
                format: "cvc.tombstone/v1"@,
                version: 1,
                interaction_id,
                deleted_at: (Timestamp { seconds: now.seconds, nanos: 0 }),
                reason_code,
                previous_node_oid: opt_text(previous_node_oid),
            }),
    {
        Tombstone {
            format: "cvc.tombstone/v1".to_owned(),
            version: 1,
            interaction_id,
            deleted_at: Timestamp { seconds: now.seconds, nanos: 0 },
            reason_code,
            previous_node_oid,
        }
    }
}

/// What every version of a redaction plan holds.
#[derive(Debug, PartialEq, Eq)]
pub struct RedactionPlanFields {
    pub destination_fingerprint: String,
    pub target_id: InteractionId,
    /// The advertised `refs/cvc/main` tip, or `None` when advertisement proved it absent.
    pub expected_remote_tip: Option<String>,
    pub replacement_commit: String,
    pub temporary_ref: String,
    pub removed_nodes: u64,
    pub removed_by_commit_entries: u64,
    pub removed_link_entries: u64,
    pub unrelated_entries_retained: u64,
    pub tombstone_oid: String,
    pub created_at: Timestamp,
    pub warning: String,
}

/// The contents of [`RedactionPlanFields`].
#[verifier::ext_equal]
pub struct PlanFieldsModel {
    pub destination_fingerprint: Seq<char>,
    pub target_id: InteractionId,
    pub expected_remote_tip: Option<Seq<char>>,
    pub replacement_commit: Seq<char>,
    pub temporary_ref: Seq<char>,
    pub removed_nodes: u64,
    pub removed_by_commit_entries: u64,
    pub removed_link_entries: u64,
    pub unrelated_entries_retained: u64,
    pub tombstone_oid: Seq<char>,
    pub created_at: Timestamp,
    pub warning: Seq<char>,
}

impl View for RedactionPlanFields {
    type V = PlanFieldsModel;

    open spec fn view(&self) -> PlanFieldsModel {
        PlanFieldsModel {
            destination_fingerprint: self.destination_fingerprint@,
            target_id: self.target_id,
            expected_remote_tip: opt_text(self.expected_remote_tip),
            replacement_commit: self.replacement_commit@,
            temporary_ref: self.temporary_ref@,
            removed_nodes: self.removed_nodes,
            removed_by_commit_entries: self.removed_by_commit_entries,
            removed_link_entries: self.removed_link_entries,
            unrelated_entries_retained: self.unrelated_entries_retained,
            tombstone_oid: self.tombstone_oid@,
            created_at: self.created_at,
            warning: self.warning@,
        }
    }
}

impl Clone for RedactionPlanFields {
    fn clone(&self) -> (r: Self)
        ensures
            r@ == self@,
    {
        RedactionPlanFields {
            destination_fingerprint: self.destination_fingerprint.clone(),
            target_id: self.target_id,
            expected_remote_tip: copy_opt_text(&self.expected_remote_tip),
            replacement_commit: self.replacement_commit.clone(),
            temporary_ref: self.temporary_ref.clone(),
            removed_nodes: self.removed_nodes,
            removed_by_commit_entries: self.removed_by_commit_entries,
            removed_link_entries: self.removed_link_entries,
            unrelated_entries_retained: self.unrelated_entries_retained,
            tombstone_oid: self.tombstone_oid.clone(),
            created_at: self.created_at,
            warning: self.warning.clone(),
        }
    }
}

impl RedactionPlanFields {
    /// Whether two records agree in every field.
    pub fn same(&self, other: &Self) -> (r: bool)
        ensures
            r == (self@ == other@),
    {
        self.destination_fingerprint == other.destination_fingerprint
            && self.target_id == other.target_id
            && opt_text_equal(&self.expected_remote_tip, &other.expected_remote_tip)
            && self.replacement_commit == other.replacement_commit
            && self.temporary_ref == other.temporary_ref
            && self.removed_nodes == other.removed_nodes
            && self.removed_by_commit_entries == other.removed_by_commit_entries
            && self.removed_link_entries == other.removed_link_entries
            && self.unrelated_entries_retained == other.unrelated_entries_retained
            && self.tombstone_oid == other.tombstone_oid
            && self.created_at == other.created_at
            && self.warning == other.warning
    }
}

/// A non-secret, destination-bound description of a local hard-redaction
/// candidate.  It is deliberately a plan, never a remote transport command.
#[derive(Debug, PartialEq, Eq)]
pub struct RedactionPlan {
    pub format: String,
    pub version: u8,
    /// Version 1: the hash of the active worktree; version 2: that of the
    /// common Git directory.
    pub repository_fingerprint: String,
    pub destination_fingerprint: String,
    pub target_id: InteractionId,
    pub expected_remote_tip: Option<String>,
    pub replacement_commit: String,
    pub temporary_ref: String,
    pub removed_nodes: u64,
    pub removed_by_commit_entries: u64,
    pub removed_link_entries: u64,
    pub unrelated_entries_retained: u64,
    pub tombstone_oid: String,
    pub created_at: Timestamp,
    pub warning: String,
}

/// The contents of [`RedactionPlan`].
#[verifier::ext_equal]
pub struct PlanModel {
    pub format: Seq<char>,
    pub version: u8,
    pub repository_fingerprint: Seq<char>,
    pub destination_fingerprint: Seq<char>,
    pub target_id: InteractionId,
    pub expected_remote_tip: Option<Seq<char>>,
    pub replacement_commit: Seq<char>,
    pub temporary_ref: Seq<char>,
    pub removed_nodes: u64,
    pub removed_by_commit_entries: u64,
    pub removed_link_entries: u64,
    pub unrelated_entries_retained: u64,
    pub tombstone_oid: Seq<char>,
    pub created_at: Timestamp,
    pub warning: Seq<char>,
}

impl View for RedactionPlan {
    type V = PlanModel;

    open spec fn view(&self) -> PlanModel {
        PlanModel {
            format: self.format@,
            version: self.version,
            repository_fingerprint: self.repository_fingerprint@,
            destination_fingerprint: self.destination_fingerprint@,
            target_id: self.target_id,
            expected_remote_tip: opt_text(self.expected_remote_tip),
            replacement_commit: self.replacement_commit@,
            temporary_ref: self.temporary_ref@,
            removed_nodes: self.removed_nodes,
            removed_by_commit_entries: self.removed_by_commit_entries,
            removed_link_entries: self.removed_link_entries,
            unrelated_entries_retained: self.unrelated_entries_retained,
            tombstone_oid: self.tombstone_oid@,
            created_at: self.created_at,
            warning: self.warning@,
        }
    }
}

impl Clone for RedactionPlan {
    fn clone(&self) -> (r: Self)
        ensures
            r@ == self@,
    {
        RedactionPlan {
            format: self.format.clone(),
            version: self.version,
            repository_fingerprint: self.repository_fingerprint.clone(),
            destination_fingerprint: self.destination_fingerprint.clone(),
            target_id: self.target_id,
            expected_remote_tip: copy_opt_text(&self.expected_remote_tip),
            replacement_commit: self.replacement_commit.clone(),
            temporary_ref: self.temporary_ref.clone(),
            removed_nodes: self.removed_nodes,
            removed_by_commit_entries: self.removed_by_commit_entries,
            removed_link_entries: self.removed_link_entries,
            unrelated_entries_retained: self.unrelated_entries_retained,
            tombstone_oid: self.tombstone_oid.clone(),
            created_at: self.created_at,
            warning: self.warning.clone(),
        }
    }
}

impl RedactionPlan {
    /// Whether two records agree in every field.
    pub fn same(&self, other: &Self) -> (r: bool)
        ensures
            r == (self@ == other@),
    {
        self.format == other.format
            && self.version == other.version
            && self.repository_fingerprint == other.repository_fingerprint
            && self.destination_fingerprint == other.destination_fingerprint
            && self.target_id == other.target_id
            && opt_text_equal(&self.expected_remote_tip, &other.expected_remote_tip)
            && self.replacement_commit == other.replacement_commit
            && self.temporary_ref == other.temporary_ref
            && self.removed_nodes == other.removed_nodes
            && self.removed_by_commit_entries == other.removed_by_commit_entries
            && self.removed_link_entries == other.removed_link_entries
            && self.unrelated_entries_retained == other.unrelated_entries_retained
            && self.tombstone_oid == other.tombstone_oid
            && self.created_at == other.created_at
            && self.warning == other.warning
    }
}

/// The plan of a format and a version with these fields.
pub open spec fn plan_of(
    format: Seq<char>,
    version: u8,
    repository_fingerprint: Seq<char>,
    f: PlanFieldsModel,
) -> PlanModel {
    PlanModel {
        format,
        version,
        repository_fingerprint,
        destination_fingerprint: f.destination_fingerprint,
        target_id: f.target_id,
        expected_remote_tip: f.expected_remote_tip,
        replacement_commit: f.replacement_commit,
        temporary_ref: f.temporary_ref,
        removed_nodes: f.removed_nodes,
        removed_by_commit_entries: f.removed_by_commit_entries,
        removed_link_entries: f.removed_link_entries,
        unrelated_entries_retained: f.unrelated_entries_retained,
        tombstone_oid: f.tombstone_oid,
        created_at: f.created_at,
        warning: f.warning,
    }
}

impl RedactionPlanFields {
    fn into_plan(self) -> (r: RedactionPlan)
        ensures
            r@ == plan_of(""@, 0, ""@, self@),
    {
        proof {
            reveal_strlit("");
        }
        let r = RedactionPlan {
            format: String::new(),
            version: 0,
            repository_fingerprint: String::new(),
            destination_fingerprint: self.destination_fingerprint,
            target_id: self.target_id,
            expected_remote_tip: self.expected_remote_tip,
            replacement_commit: self.replacement_commit,
            temporary_ref: self.temporary_ref,
            removed_nodes: self.removed_nodes,
            removed_by_commit_entries: self.removed_by_commit_entries,
            removed_link_entries: self.removed_link_entries,
            unrelated_entries_retained: self.unrelated_entries_retained,
            tombstone_oid: self.tombstone_oid,
            created_at: self.created_at,
            warning: self.warning,
        };
        assert(r.format@ =~= ""@);
        assert(r.repository_fingerprint@ =~= ""@);
        r
    }
}

impl RedactionPlan {
    pub fn v2(repository_fingerprint: String, common: RedactionPlanFields) -> (r: Self)
        ensures
            r@ == plan_of("cvc.redaction-plan/v2"@, 2, repository_fingerprint@, common@),
    {
        let mut plan = common.into_plan();
        plan.format = "cvc.redaction-plan/v2".to_owned();
        plan.version = 2;
        plan.repository_fingerprint = repository_fingerprint;
        plan
    }

    pub fn legacy_v1(repository_fingerprint: String, common: RedactionPlanFields) -> (r: Self)
        ensures
            r@ == plan_of("cvc.redaction-plan/v1"@, 1, repository_fingerprint@, common@),
    {
        let mut plan = common.into_plan();
        plan.format = "cvc.redaction-plan/v1".to_owned();
        plan.version = 1;
        plan.repository_fingerprint = repository_fingerprint;
        plan
    }

    /// The plan that a document of this format and version stands for; `None`
    /// where the two do not belong together.
    pub fn from_envelope(
        format: &str,
        version: u8,
        repository_fingerprint: String,
        common: RedactionPlanFields,
    ) -> (r: Option<Self>)
        ensures
            match r {
                Some(plan) => (format@ == "cvc.redaction-plan/v1"@ && version == 1 || format@
                    == "cvc.redaction-plan/v2"@ && version == 2) && plan@ == plan_of(
                    format@,
                    version,
                    repository_fingerprint@,
                    common@,
                ),
                None => !(format@ == "cvc.redaction-plan/v1"@ && version == 1) && !(format@
                    == "cvc.redaction-plan/v2"@ && version == 2),
            },
    {
        if version == 1 && text_equal(format, "cvc.redaction-plan/v1") {
            Some(Self::legacy_v1(repository_fingerprint, common))
        } else if version == 2 && text_equal(format, "cvc.redaction-plan/v2") {
            Some(Self::v2(repository_fingerprint, common))
        } else {
            None
        }
    }

    pub fn destination_fingerprint(&self) -> (r: &str)
        ensures
            r@ == self.destination_fingerprint@,
    {
        self.destination_fingerprint.as_str()
    }
}

/// One conversation.
#[derive(Debug)]
pub struct Conversation {
    pub id: String,
    pub title: String,
    pub created_at: Timestamp,
}

/// The contents of [`Conversation`].
#[verifier::ext_equal]
pub struct ConversationModel {
    pub id: Seq<char>,
    pub title: Seq<char>,
    pub created_at: Timestamp,
}

impl View for Conversation {
    type V = ConversationModel;

    open spec fn view(&self) -> ConversationModel {
        ConversationModel {
            id: self.id@,
            title: self.title@,
            created_at: self.created_at,
        }
    }
}

impl Clone for Conversation {
    fn clone(&self) -> (r: Self)
        ensures
            r@ == self@,
    {
        Conversation {
            id: self.id.clone(),
            title: self.title.clone(),
            created_at: self.created_at,
        }
    }
}

impl Conversation {
    /// Whether two records agree in every field.
    pub fn same(&self, other: &Self) -> (r: bool)
        ensures
            r == (self@ == other@),
    {
        self.id == other.id
            && self.title == other.title
            && self.created_at == other.created_at
    }
}

#[derive(Debug, Clone, Copy, PartialEq, Eq, Structural)]
pub enum Author {
    Human,
    Agent,
    System,
    External,
}

#[derive(Debug, Clone, Copy, PartialEq, Eq, Structural)]
pub enum ToolStatus {
    Success,
    Failure,
}

/// Closed persistence visibility state. Local captures are always private.
#[derive(Debug, Clone, Copy, PartialEq, Eq, Structural)]
pub enum Visibility {
    Private,
    Shared,
}

impl Default for Visibility {
    fn default() -> (r: Self)
        ensures
            r == Visibility::Private,
    {
        Visibility::Private
    }
}

/// Whether a user explicitly chose to share future turns in a conversation.
/// This is deliberately separate from the current rows' visibility.
#[derive(Debug, Clone, Copy, PartialEq, Eq, Structural)]
pub enum FutureSharePolicy {
    Private,
    Shared,
}

#[derive(Debug, Clone, Copy, PartialEq, Eq, Structural)]
pub enum PublicationState {
    Pending,
    Published,
    Unknown,
}

/// Trusted capture provenance; this is assigned by adapters, never decoded from payloads.
#[derive(Debug, Clone, Copy, PartialEq, Eq, Structural)]
pub enum CaptureSource {
    Mcp,
    VscodePassive,
    VscodeExplicit,
    CliRun,
    SyncImport,
    Legacy,
}

impl Default for CaptureSource {
    fn default() -> (r: Self)
        ensures
            r == CaptureSource::Legacy,
    {
        CaptureSource::Legacy
    }
}

/// One turn of a conversation.
#[derive(Debug)]
pub struct Interaction {
    pub id: InteractionId,
    pub conversation_id: String,
    pub parent_id: Option<InteractionId>,
    pub timestamp: Timestamp,
    pub author: Author,
    pub user_prompt: String,
    pub model_name: Option<String>,
    pub model_cot: Option<String>,
    pub model_response: Option<String>,
    /// Tracks which VS Code chat request generated this interaction.
    /// Used for deduplication when re-processing the same request.
    pub source_request_id: Option<String>,
}

/// The contents of [`Interaction`].
#[verifier::ext_equal]
pub struct InteractionModel {
    pub id: InteractionId,
    pub conversation_id: Seq<char>,
    pub parent_id: Option<InteractionId>,
    pub timestamp: Timestamp,
    pub author: Author,
    pub user_prompt: Seq<char>,
    pub model_name: Option<Seq<char>>,
    pub model_cot: Option<Seq<char>>,
    pub model_response: Option<Seq<char>>,
    pub source_request_id: Option<Seq<char>>,
}

impl View for Interaction {
    type V = InteractionModel;

    open spec fn view(&self) -> InteractionModel {
        InteractionModel {
            id: self.id,
            conversation_id: self.conversation_id@,
            parent_id: self.parent_id,
            timestamp: self.timestamp,
            author: self.author,
            user_prompt: self.user_prompt@,
            model_name: opt_text(self.model_name),
            model_cot: opt_text(self.model_cot),
            model_response: opt_text(self.model_response),
            source_request_id: opt_text(self.source_request_id),
        }
    }
}

impl Clone for Interaction {
    fn clone(&self) -> (r: Self)
        ensures
            r@ == self@,
    {
        Interaction {
            id: self.id,
            conversation_id: self.conversation_id.clone(),
            parent_id: self.parent_id,
            timestamp: self.timestamp,
            author: self.author,
            user_prompt: self.user_prompt.clone(),
            model_name: copy_opt_text(&self.model_name),
            model_cot: copy_opt_text(&self.model_cot),
            model_response: copy_opt_text(&self.model_response),
            source_request_id: copy_opt_text(&self.source_request_id),
        }
    }
}

impl Interaction {
    /// Whether two records agree in every field.
    pub fn same(&self, other: &Self) -> (r: bool)
        ensures
            r == (self@ == other@),
    {
        self.id == other.id
            && self.conversation_id == other.conversation_id
            && self.parent_id == other.parent_id
            && self.timestamp == other.timestamp
            && self.author == other.author
            && self.user_prompt == other.user_prompt
            && opt_text_equal(&self.model_name, &other.model_name)
            && opt_text_equal(&self.model_cot, &other.model_cot)
            && opt_text_equal(&self.model_response, &other.model_response)
            && opt_text_equal(&self.source_request_id, &other.source_request_id)
    }
}

/// A file that an interaction had in view.
#[derive(Debug)]
pub struct ContextItem {
    pub id: Option<i64>,
    pub interaction_id: InteractionId,
    pub file_path: String,
    pub git_blob_sha: Option<String>,
    pub dirty_patch: Option<String>,
    pub start_line: Option<i32>,
    pub end_line: Option<i32>,
}

/// The contents of [`ContextItem`].
#[verifier::ext_equal]
pub struct ContextModel {
    pub id: Option<i64>,
    pub interaction_id: InteractionId,
    pub file_path: Seq<char>,
    pub git_blob_sha: Option<Seq<char>>,
    pub dirty_patch: Option<Seq<char>>,
    pub start_line: Option<i32>,
    pub end_line: Option<i32>,
}

impl View for ContextItem {
    type V = ContextModel;

    open spec fn view(&self) -> ContextModel {
        ContextModel {
            id: self.id,
            interaction_id: self.interaction_id,
            file_path: self.file_path@,
            git_blob_sha: opt_text(self.git_blob_sha),
            dirty_patch: opt_text(self.dirty_patch),
            start_line: self.start_line,
            end_line: self.end_line,
        }
    }
}

impl Clone for ContextItem {
    fn clone(&self) -> (r: Self)
        ensures
            r@ == self@,
    {
        ContextItem {
            id: self.id,
            interaction_id: self.interaction_id,
            file_path: self.file_path.clone(),
            git_blob_sha: copy_opt_text(&self.git_blob_sha),
            dirty_patch: copy_opt_text(&self.dirty_patch),
            start_line: self.start_line,
            end_line: self.end_line,
        }
    }
}

impl ContextItem {
    /// Whether two records agree in every field.
    pub fn same(&self, other: &Self) -> (r: bool)
        ensures
            r == (self@ == other@),
    {
        self.id == other.id
            && self.interaction_id == other.interaction_id
            && self.file_path == other.file_path
            && opt_text_equal(&self.git_blob_sha, &other.git_blob_sha)
            && opt_text_equal(&self.dirty_patch, &other.dirty_patch)
            && self.start_line == other.start_line
            && self.end_line == other.end_line
    }
}

/// The contents of a list of records.
pub open spec fn context_models(s: Seq<ContextItem>) -> Seq<ContextModel> {
    s.map_values(|x: ContextItem| x@)
}

/// A copy of a list.
pub fn copy_contexts(a: &Vec<ContextItem>) -> (r: Vec<ContextItem>)
    ensures
        context_models(r@) == context_models(a@),
{
    let mut out: Vec<ContextItem> = Vec::new();
    let mut i: usize = 0;
    while i < a.len()
        invariant
            i <= a.len(),
            context_models(out@) == context_models(a@).take(i as int),
        decreases a.len() - i,
    {
        let ghost held = context_models(out@);
        out.push(a[i].clone());
        assert(context_models(out@) =~= held.push(a@[i as int]@));
        i += 1;
        assert(context_models(out@) =~= context_models(a@).take(i as int));
    }
    assert(context_models(a@).take(a@.len() as int) =~= context_models(a@));
    out
}

/// Whether two lists agree.
pub fn same_contexts(a: &Vec<ContextItem>, b: &Vec<ContextItem>) -> (r: bool)
    ensures
        r == (context_models(a@) == context_models(b@)),
{
    let ghost x = context_models(a@);
    let ghost y = context_models(b@);
    if a.len() != b.len() {
        assert(x.len() != y.len());
        return false;
    }
    let mut i: usize = 0;
    while i < a.len()
        invariant
            i <= a.len(),
            a.len() == b.len(),
            x == context_models(a@),
            y == context_models(b@),
            forall|k: int| 0 <= k < i ==> x[k] == y[k],
        decreases a.len() - i,
    {
        assert(x[i as int] == a@[i as int]@ && y[i as int] == b@[i as int]@);
        if !a[i].same(&b[i]) {
            return false;
        }
        i += 1;
    }
    assert(x =~= y);
    true
}

/// A tool that an interaction ran.
#[derive(Debug)]
pub struct ToolExecution {
    pub id: Option<i64>,
    pub interaction_id: InteractionId,
    pub tool_protocol: String,
    pub tool_name: String,
    pub arguments: String,
    pub status: ToolStatus,
}

/// The contents of [`ToolExecution`].
#[verifier::ext_equal]
pub struct ToolModel {
    pub id: Option<i64>,
    pub interaction_id: InteractionId,
    pub tool_protocol: Seq<char>,
    pub tool_name: Seq<char>,
    pub arguments: Seq<char>,
    pub status: ToolStatus,
}

impl View for ToolExecution {
    type V = ToolModel;

    open spec fn view(&self) -> ToolModel {
        ToolModel {
            id: self.id,
            interaction_id: self.interaction_id,
            tool_protocol: self.tool_protocol@,
            tool_name: self.tool_name@,
            arguments: self.arguments@,
            status: self.status,
        }
    }
}

impl Clone for ToolExecution {
    fn clone(&self) -> (r: Self)
        ensures
            r@ == self@,
    {
        ToolExecution {
            id: self.id,
            interaction_id: self.interaction_id,
            tool_protocol: self.tool_protocol.clone(),
            tool_name: self.tool_name.clone(),
            arguments: self.arguments.clone(),
            status: self.status,
        }
    }
}

impl ToolExecution {
    /// Whether two records agree in every field.
    pub fn same(&self, other: &Self) -> (r: bool)
        ensures
            r == (self@ == other@),
    {
        self.id == other.id
            && self.interaction_id == other.interaction_id
            && self.tool_protocol == other.tool_protocol
            && self.tool_name == other.tool_name
            && self.arguments == other.arguments
            && self.status == other.status
    }
}

/// The contents of a list of records.
pub open spec fn tool_models(s: Seq<ToolExecution>) -> Seq<ToolModel> {
    s.map_values(|x: ToolExecution| x@)
}

/// A copy of a list.
pub fn copy_tools(a: &Vec<ToolExecution>) -> (r: Vec<ToolExecution>)
    ensures
        tool_models(r@) == tool_models(a@),
{
    let mut out: Vec<ToolExecution> = Vec::new();
    let mut i: usize = 0;
    while i < a.len()
        invariant
            i <= a.len(),
            tool_models(out@) == tool_models(a@).take(i as int),
        decreases a.len() - i,
    {
        let ghost held = tool_models(out@);
        out.push(a[i].clone());
        assert(tool_models(out@) =~= held.push(a@[i as int]@));
        i += 1;
        assert(tool_models(out@) =~= tool_models(a@).take(i as int));
    }
    assert(tool_models(a@).take(a@.len() as int) =~= tool_models(a@));
    out
}

/// Whether two lists agree.
pub fn same_tools(a: &Vec<ToolExecution>, b: &Vec<ToolExecution>) -> (r: bool)
    ensures
        r == (tool_models(a@) == tool_models(b@)),
{
    let ghost x = tool_models(a@);
    let ghost y = tool_models(b@);
    if a.len() != b.len() {
        assert(x.len() != y.len());
        return false;
    }
    let mut i: usize = 0;
    while i < a.len()
        invariant
            i <= a.len(),
            a.len() == b.len(),
            x == tool_models(a@),
            y == tool_models(b@),
            forall|k: int| 0 <= k < i ==> x[k] == y[k],
        decreases a.len() - i,
    {
        assert(x[i as int] == a@[i as int]@ && y[i as int] == b@[i as int]@);
        if !a[i].same(&b[i]) {
            return false;
        }
        i += 1;
    }
    assert(x =~= y);
    true
}

/// The link of an interaction to a commit.
#[derive(Debug)]
pub struct ArtifactLink {
    pub interaction_id: InteractionId,
    pub git_commit_hash: CommitSha,
    pub link_type: String,
    /// Git author email from the commit that caused an automatic link.
    /// Absent for links created before this metadata was introduced.
    pub linked_by: Option<String>,
}

/// The contents of [`ArtifactLink`].
#[verifier::ext_equal]
pub struct LinkModel {
    pub interaction_id: InteractionId,
    pub git_commit_hash: Seq<char>,
    pub link_type: Seq<char>,
    pub linked_by: Option<Seq<char>>,
}

impl View for ArtifactLink {
    type V = LinkModel;

    open spec fn view(&self) -> LinkModel {
        LinkModel {
            interaction_id: self.interaction_id,
            git_commit_hash: self.git_commit_hash@,
            link_type: self.link_type@,
            linked_by: opt_text(self.linked_by),
        }
    }
}

impl Clone for ArtifactLink {
    fn clone(&self) -> (r: Self)
        ensures
            r@ == self@,
    {
        ArtifactLink {
            interaction_id: self.interaction_id,
            git_commit_hash: self.git_commit_hash.clone(),
            link_type: self.link_type.clone(),
            linked_by: copy_opt_text(&self.linked_by),
        }
    }
}

impl ArtifactLink {
    /// Whether two records agree in every field.
    pub fn same(&self, other: &Self) -> (r: bool)
        ensures
            r == (self@ == other@),
    {
        self.interaction_id == other.interaction_id
            && self.git_commit_hash.sha == other.git_commit_hash.sha
            && self.link_type == other.link_type
            && opt_text_equal(&self.linked_by, &other.linked_by)
    }
}

/// The contents of a list of records.
pub open spec fn link_models(s: Seq<ArtifactLink>) -> Seq<LinkModel> {
    s.map_values(|x: ArtifactLink| x@)
}

/// A copy of a list.
pub fn copy_links(a: &Vec<ArtifactLink>) -> (r: Vec<ArtifactLink>)
    ensures
        link_models(r@) == link_models(a@),
{
    let mut out: Vec<ArtifactLink> = Vec::new();
    let mut i: usize = 0;
    while i < a.len()
        invariant
            i <= a.len(),
            link_models(out@) == link_models(a@).take(i as int),
        decreases a.len() - i,
    {
        let ghost held = link_models(out@);
        out.push(a[i].clone());
        assert(link_models(out@) =~= held.push(a@[i as int]@));
        i += 1;
        assert(link_models(out@) =~= link_models(a@).take(i as int));
    }
    assert(link_models(a@).take(a@.len() as int) =~= link_models(a@));
    out
}

/// Whether two lists agree.
pub fn same_links(a: &Vec<ArtifactLink>, b: &Vec<ArtifactLink>) -> (r: bool)
    ensures
        r == (link_models(a@) == link_models(b@)),
{
    let ghost x = link_models(a@);
    let ghost y = link_models(b@);
    if a.len() != b.len() {
        assert(x.len() != y.len());
        return false;
    }
    let mut i: usize = 0;
    while i < a.len()
        invariant
            i <= a.len(),
            a.len() == b.len(),
            x == link_models(a@),
            y == link_models(b@),
            forall|k: int| 0 <= k < i ==> x[k] == y[k],
        decreases a.len() - i,
    {
        assert(x[i as int] == a@[i as int]@ && y[i as int] == b@[i as int]@);
        if !a[i].same(&b[i]) {
            return false;
        }
        i += 1;
    }
    assert(x =~= y);
    true
}

/// How the store came to know an event.
#[derive(Debug, PartialEq, Eq)]
pub struct SourceObservationRow {
    pub source_fingerprint: Option<String>,
    pub source_key: String,
    pub origin: String,
    pub trusted_local: bool,
}

/// The contents of [`SourceObservationRow`].
#[verifier::ext_equal]
pub struct ObservationModel {
    pub source_fingerprint: Option<Seq<char>>,
    pub source_key: Seq<char>,
    pub origin: Seq<char>,
    pub trusted_local: bool,
}

impl View for SourceObservationRow {
    type V = ObservationModel;

    open spec fn view(&self) -> ObservationModel {
        ObservationModel {
            source_fingerprint: opt_text(self.source_fingerprint),
            source_key: self.source_key@,
            origin: self.origin@,
            trusted_local: self.trusted_local,
        }
    }
}

impl Clone for SourceObservationRow {
    fn clone(&self) -> (r: Self)
        ensures
            r@ == self@,
    {
        SourceObservationRow {
            source_fingerprint: copy_opt_text(&self.source_fingerprint),
            source_key: self.source_key.clone(),
            origin: self.origin.clone(),
            trusted_local: self.trusted_local,
        }
    }
}

impl SourceObservationRow {
    /// Whether two records agree in every field.
    pub fn same(&self, other: &Self) -> (r: bool)
        ensures
            r == (self@ == other@),
    {
        opt_text_equal(&self.source_fingerprint, &other.source_fingerprint)
            && self.source_key == other.source_key
            && self.origin == other.origin
            && self.trusted_local == other.trusted_local
    }
}

/// The contents of a list of records.
pub open spec fn observation_models(s: Seq<SourceObservationRow>) -> Seq<ObservationModel> {
    s.map_values(|x: SourceObservationRow| x@)
}

/// A copy of a list.
pub fn copy_observations(a: &Vec<SourceObservationRow>) -> (r: Vec<SourceObservationRow>)
    ensures
        observation_models(r@) == observation_models(a@),
{
    let mut out: Vec<SourceObservationRow> = Vec::new();
    let mut i: usize = 0;
    while i < a.len()
        invariant
            i <= a.len(),
            observation_models(out@) == observation_models(a@).take(i as int),
        decreases a.len() - i,
    {
        let ghost held = observation_models(out@);
        out.push(a[i].clone());
        assert(observation_models(out@) =~= held.push(a@[i as int]@));
        i += 1;
        assert(observation_models(out@) =~= observation_models(a@).take(i as int));
    }
    assert(observation_models(a@).take(a@.len() as int) =~= observation_models(a@));
    out
}

/// Whether two lists agree.
pub fn same_observations(a: &Vec<SourceObservationRow>, b: &Vec<SourceObservationRow>) -> (r: bool)
    ensures
        r == (observation_models(a@) == observation_models(b@)),
{
    let ghost x = observation_models(a@);
    let ghost y = observation_models(b@);
    if a.len() != b.len() {
        assert(x.len() != y.len());
        return false;
    }
    let mut i: usize = 0;
    while i < a.len()
        invariant
            i <= a.len(),
            a.len() == b.len(),
            x == observation_models(a@),
            y == observation_models(b@),
            forall|k: int| 0 <= k < i ==> x[k] == y[k],
        decreases a.len() - i,
    {
        assert(x[i as int] == a@[i as int]@ && y[i as int] == b@[i as int]@);
        if !a[i].same(&b[i]) {
            return false;
        }
        i += 1;
    }
    assert(x =~= y);
    true
}

/// A destination that may receive a source.
#[derive(Debug, PartialEq, Eq)]
pub struct SourceAuthorizationRow {
    pub remote_fingerprint: String,
    pub source_event_id: String,
}

/// The contents of [`SourceAuthorizationRow`].
#[verifier::ext_equal]
pub struct AuthorizationModel {
    pub remote_fingerprint: Seq<char>,
    pub source_event_id: Seq<char>,
}

impl View for SourceAuthorizationRow {
    type V = AuthorizationModel;

    open spec fn view(&self) -> AuthorizationModel {
        AuthorizationModel {
            remote_fingerprint: self.remote_fingerprint@,
            source_event_id: self.source_event_id@,
        }
    }
}

impl Clone for SourceAuthorizationRow {
    fn clone(&self) -> (r: Self)
        ensures
            r@ == self@,
    {
        SourceAuthorizationRow {
            remote_fingerprint: self.remote_fingerprint.clone(),
            source_event_id: self.source_event_id.clone(),
        }
    }
}

impl SourceAuthorizationRow {
    /// Whether two records agree in every field.
    pub fn same(&self, other: &Self) -> (r: bool)
        ensures
            r == (self@ == other@),
    {
        self.remote_fingerprint == other.remote_fingerprint
            && self.source_event_id == other.source_event_id
    }
}

/// The contents of a list of records.
pub open spec fn authorization_models(s: Seq<SourceAuthorizationRow>) -> Seq<AuthorizationModel> {
    s.map_values(|x: SourceAuthorizationRow| x@)
}

/// A copy of a list.
pub fn copy_authorizations(a: &Vec<SourceAuthorizationRow>) -> (r: Vec<SourceAuthorizationRow>)
    ensures
        authorization_models(r@) == authorization_models(a@),
{
    let mut out: Vec<SourceAuthorizationRow> = Vec::new();
    let mut i: usize = 0;
    while i < a.len()
        invariant
            i <= a.len(),
            authorization_models(out@) == authorization_models(a@).take(i as int),
        decreases a.len() - i,
    {
        let ghost held = authorization_models(out@);
        out.push(a[i].clone());
        assert(authorization_models(out@) =~= held.push(a@[i as int]@));
        i += 1;
        assert(authorization_models(out@) =~= authorization_models(a@).take(i as int));
    }
    assert(authorization_models(a@).take(a@.len() as int) =~= authorization_models(a@));
    out
}

/// Whether two lists agree.
pub fn same_authorizations(a: &Vec<SourceAuthorizationRow>, b: &Vec<SourceAuthorizationRow>) -> (r: bool)
    ensures
        r == (authorization_models(a@) == authorization_models(b@)),
{
    let ghost x = authorization_models(a@);
    let ghost y = authorization_models(b@);
    if a.len() != b.len() {
        assert(x.len() != y.len());
        return false;
    }
    let mut i: usize = 0;
    while i < a.len()
        invariant
            i <= a.len(),
            a.len() == b.len(),
            x == authorization_models(a@),
            y == authorization_models(b@),
            forall|k: int| 0 <= k < i ==> x[k] == y[k],
        decreases a.len() - i,
    {
        assert(x[i as int] == a@[i as int]@ && y[i as int] == b@[i as int]@);
        if !a[i].same(&b[i]) {
            return false;
        }
        i += 1;
    }
    assert(x =~= y);
    true
}

/// Immutable preflight input to a rewrite.  It is deliberately a value object:
/// the write phase reads it again and requires equality before it can append
/// any derived event.
#[derive(Debug, PartialEq, Eq)]
pub enum SourceSnapshot {
    Legacy {
        interaction: String,
        commit: String,
        link_type: String,
        linked_by: Option<String>,
        authorization_rows: Vec<SourceAuthorizationRow>,
    },
    Event {
        event_id: String,
        canonical_payload: String,
        canonical_payload_digest: String,
        trusted_local_observations: Vec<SourceObservationRow>,
        authorization_rows: Vec<SourceAuthorizationRow>,
    },
}

/// The contents of [`SourceSnapshot`].
#[verifier::ext_equal]
pub enum SnapshotModel {
    Legacy {
        interaction: Seq<char>,
        commit: Seq<char>,
        link_type: Seq<char>,
        linked_by: Option<Seq<char>>,
        authorization_rows: Seq<AuthorizationModel>,
    },
    Event {
        event_id: Seq<char>,
        canonical_payload: Seq<char>,
        canonical_payload_digest: Seq<char>,
        trusted_local_observations: Seq<ObservationModel>,
        authorization_rows: Seq<AuthorizationModel>,
    },
}

impl View for SourceSnapshot {
    type V = SnapshotModel;

    open spec fn view(&self) -> SnapshotModel {
        match self {
            SourceSnapshot::Legacy {
                interaction,
                commit,
                link_type,
                linked_by,
                authorization_rows,
            } => SnapshotModel::Legacy {
                interaction: interaction@,
                commit: commit@,
                link_type: link_type@,
                linked_by: opt_text(*linked_by),
                authorization_rows: authorization_models(authorization_rows@),
            },
            SourceSnapshot::Event {
                event_id,
                canonical_payload,
                canonical_payload_digest,
                trusted_local_observations,
                authorization_rows,
            } => SnapshotModel::Event {
                event_id: event_id@,
                canonical_payload: canonical_payload@,
                canonical_payload_digest: canonical_payload_digest@,
                trusted_local_observations: observation_models(trusted_local_observations@),
                authorization_rows: authorization_models(authorization_rows@),
            },
        }
    }
}

impl Clone for SourceSnapshot {
    fn clone(&self) -> (r: Self)
        ensures
            r@ == self@,
    {
        match self {
            SourceSnapshot::Legacy {
                interaction,
                commit,
                link_type,
                linked_by,
                authorization_rows,
            } => SourceSnapshot::Legacy {
                interaction: interaction.clone(),
                commit: commit.clone(),
                link_type: link_type.clone(),
                linked_by: copy_opt_text(linked_by),
                authorization_rows: copy_authorizations(authorization_rows),
            },
            SourceSnapshot::Event {
                event_id,
                canonical_payload,
                canonical_payload_digest,
                trusted_local_observations,
                authorization_rows,
            } => SourceSnapshot::Event {
                event_id: event_id.clone(),
                canonical_payload: canonical_payload.clone(),
                canonical_payload_digest: canonical_payload_digest.clone(),
                trusted_local_observations: copy_observations(trusted_local_observations),
                authorization_rows: copy_authorizations(authorization_rows),
            },
        }
    }
}

impl SourceSnapshot {
    /// Whether two snapshots agree in every field.
    pub fn same(&self, other: &Self) -> (r: bool)
        ensures
            r == (self@ == other@),
    {
        match (self, other) {
            (
                SourceSnapshot::Legacy {
                    interaction,
                    commit,
                    link_type,
                    linked_by,
                    authorization_rows,
                },
                SourceSnapshot::Legacy {
                    interaction: interaction2,
                    commit: commit2,
                    link_type: link_type2,
                    linked_by: linked_by2,
                    authorization_rows: authorization_rows2,
                },
            ) => *interaction == *interaction2 && *commit == *commit2 && *link_type == *link_type2
                && opt_text_equal(linked_by, linked_by2) && same_authorizations(
                authorization_rows,
                authorization_rows2,
            ),
            (
                SourceSnapshot::Event {
                    event_id,
                    canonical_payload,
                    canonical_payload_digest,
                    trusted_local_observations,
                    authorization_rows,
                },
                SourceSnapshot::Event {
                    event_id: event_id2,
                    canonical_payload: canonical_payload2,
                    canonical_payload_digest: canonical_payload_digest2,
                    trusted_local_observations: trusted_local_observations2,
                    authorization_rows: authorization_rows2,
                },
            ) => *event_id == *event_id2 && *canonical_payload == *canonical_payload2
                && *canonical_payload_digest == *canonical_payload_digest2 && same_observations(
                trusted_local_observations,
                trusted_local_observations2,
            ) && same_authorizations(authorization_rows, authorization_rows2),
            _ => false,
        }
    }
}

/// Local-only source material captured with a range. Never serialized under
/// `ranges/` and always scoped to exactly one interaction.
#[derive(Debug, PartialEq, Eq)]
pub struct RangeSourceSnapshot {
    pub interaction_id: InteractionId,
    pub source_id: String,
    pub snapshot: SourceSnapshot,
}

/// The contents of [`RangeSourceSnapshot`].
#[verifier::ext_equal]
pub struct RangeSourceModel {
    pub interaction_id: InteractionId,
    pub source_id: Seq<char>,
    pub snapshot: SnapshotModel,
}

impl View for RangeSourceSnapshot {
    type V = RangeSourceModel;

    open spec fn view(&self) -> RangeSourceModel {
        RangeSourceModel {
            interaction_id: self.interaction_id,
            source_id: self.source_id@,
            snapshot: self.snapshot@,
        }
    }
}

impl Clone for RangeSourceSnapshot {
    fn clone(&self) -> (r: Self)
        ensures
            r@ == self@,
    {
        RangeSourceSnapshot {
            interaction_id: self.interaction_id,
            source_id: self.source_id.clone(),
            snapshot: self.snapshot.clone(),
        }
    }
}

impl RangeSourceSnapshot {
    /// Whether two records agree in every field.
    pub fn same(&self, other: &Self) -> (r: bool)
        ensures
            r == (self@ == other@),
    {
        self.interaction_id == other.interaction_id
            && self.source_id == other.source_id
            && self.snapshot.same(&other.snapshot)
    }
}

/// The contents of a list of records.
pub open spec fn range_source_models(s: Seq<RangeSourceSnapshot>) -> Seq<RangeSourceModel> {
    s.map_values(|x: RangeSourceSnapshot| x@)
}

/// A copy of a list.
pub fn copy_range_sources(a: &Vec<RangeSourceSnapshot>) -> (r: Vec<RangeSourceSnapshot>)
    ensures
        range_source_models(r@) == range_source_models(a@),
{
    let mut out: Vec<RangeSourceSnapshot> = Vec::new();
    let mut i: usize = 0;
    while i < a.len()
        invariant
            i <= a.len(),
            range_source_models(out@) == range_source_models(a@).take(i as int),
        decreases a.len() - i,
    {
        let ghost held = range_source_models(out@);
        out.push(a[i].clone());
        assert(range_source_models(out@) =~= held.push(a@[i as int]@));
        i += 1;
        assert(range_source_models(out@) =~= range_source_models(a@).take(i as int));
    }
    assert(range_source_models(a@).take(a@.len() as int) =~= range_source_models(a@));
    out
}

} // verus!
