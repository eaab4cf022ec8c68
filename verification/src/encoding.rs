//! Canonical identities: the byte strings that identities are digests of are
//! unambiguous, and do not depend on the order in which sources are listed.

use crate::digest;
use crate::models;
use crate::models::{EventModel, RangeModel};
use crate::order;
use vstd::prelude::*;
use vstd::string::*;
use vstd::utf8::*;

verus! {

/// The text fits its length prefix.
pub open spec fn fits(s: Seq<char>) -> bool {
    encode_utf8(s).len() <= u64::MAX
}

/// Every text fits its length prefix, and so does their number.
pub open spec fn all_fit(s: Seq<Seq<char>>) -> bool {
    s.len() <= u64::MAX && forall|i: int| 0 <= i < s.len() ==> fits(#[trigger] s[i])
}

/// The text, if there is one, fits its length prefix.
pub open spec fn opt_fits(o: Option<Seq<char>>) -> bool {
    o matches Some(s) ==> fits(s)
}

proof fn lemma_prefix(p: Seq<u8>, x: Seq<u8>, y: Seq<u8>)
    requires
        p + x == p + y,
    ensures
        x == y,
{
    assert(x =~= (p + x).skip(p.len() as int));
    assert(y =~= (p + y).skip(p.len() as int));
}

proof fn lemma_text_prefix(tag: u8, a: Seq<char>, b: Seq<char>, x: Seq<u8>, y: Seq<u8>)
    requires
        fits(a),
        fits(b),
        digest::text_field(tag, a) + x == digest::text_field(tag, b) + y,
    ensures
        a == b,
        x == y,
{
    digest::lemma_field_prefix(tag, encode_utf8(a), encode_utf8(b), x, y);
    encode_utf8_decode_utf8(a);
    encode_utf8_decode_utf8(b);
}

proof fn lemma_count_prefix(tag: u8, n: nat, m: nat, x: Seq<u8>, y: Seq<u8>)
    requires
        n <= u64::MAX,
        m <= u64::MAX,
        digest::count_field(tag, n) + x == digest::count_field(tag, m) + y,
    ensures
        n == m,
        x == y,
{
    let l = digest::count_field(tag, n) + x;
    let r = digest::count_field(tag, m) + y;
    assert(digest::be64(n as u64) =~= l.subrange(1, 9));
    assert(digest::be64(m as u64) =~= r.subrange(1, 9));
    digest::lemma_be64_injective(n as u64, m as u64);
    assert(x =~= l.skip(9));
    assert(y =~= r.skip(9));
}

proof fn lemma_optional_prefix(
    tag: u8,
    a: Option<Seq<char>>,
    b: Option<Seq<char>>,
    x: Seq<u8>,
    y: Seq<u8>,
)
    requires
        opt_fits(a),
        opt_fits(b),
        models::optional_field(tag, a) + x == models::optional_field(tag, b) + y,
    ensures
        a == b,
        x == y,
{
    let l = models::optional_field(tag, a) + x;
    let r = models::optional_field(tag, b) + y;
    assert(l[1] == r[1]);
    match (a, b) {
        (Some(p), Some(q)) => {
            let u = digest::text_field(tag, p) + x;
            let v = digest::text_field(tag, q) + y;
            assert(u =~= l.skip(2));
            assert(v =~= r.skip(2));
            lemma_text_prefix(tag, p, q, x, y);
        },
        (None, None) => {
            assert(x =~= l.skip(2));
            assert(y =~= r.skip(2));
        },
        _ => {},
    }
}

proof fn lemma_fields_front(tag: u8, s: Seq<Seq<char>>)
    requires
        s.len() > 0,
    ensures
        digest::text_fields(tag, s) == digest::text_field(tag, s[0]) + digest::text_fields(
            tag,
            s.drop_first(),
        ),
    decreases s.len(),
{
    if s.len() == 1 {
        assert(s.drop_last() =~= Seq::<Seq<char>>::empty());
        assert(s.drop_first() =~= Seq::<Seq<char>>::empty());
        assert(digest::text_fields(tag, s) =~= digest::text_field(tag, s[0])
            + digest::text_fields(tag, s.drop_first()));
    } else {
        lemma_fields_front(tag, s.drop_last());
        assert(s.drop_first().drop_last() =~= s.drop_last().drop_first());
        assert(digest::text_fields(tag, s) =~= digest::text_field(tag, s[0])
            + digest::text_fields(tag, s.drop_first()));
    }
}

proof fn lemma_fields_prefix(
    tag: u8,
    a: Seq<Seq<char>>,
    b: Seq<Seq<char>>,
    x: Seq<u8>,
    y: Seq<u8>,
)
    requires
        a.len() == b.len(),
        all_fit(a),
        all_fit(b),
        digest::text_fields(tag, a) + x == digest::text_fields(tag, b) + y,
    ensures
        a == b,
        x == y,
    decreases a.len(),
{
    if a.len() == 0 {
        assert(digest::text_fields(tag, a) + x =~= x);
        assert(digest::text_fields(tag, b) + y =~= y);
        assert(a =~= b);
    } else {
        lemma_fields_front(tag, a);
        lemma_fields_front(tag, b);
        let p = digest::text_fields(tag, a.drop_first()) + x;
        let q = digest::text_fields(tag, b.drop_first()) + y;
        assert(digest::text_fields(tag, a) + x =~= digest::text_field(tag, a[0]) + p);
        assert(digest::text_fields(tag, b) + y =~= digest::text_field(tag, b[0]) + q);
        lemma_text_prefix(tag, a[0], b[0], p, q);
        lemma_fields_prefix(tag, a.drop_first(), b.drop_first(), x, y);
        assert(a =~= seq![a[0]] + a.drop_first());
        assert(b =~= seq![b[0]] + b.drop_first());
    }
}

proof fn lemma_decimal(n: nat)
    ensures
        is_ascii_chars(digest::decimal(n)),
        0 < digest::decimal(n).len() <= n + 1,
    decreases n,
{
    if n >= 10 {
        lemma_decimal(n / 10);
    }
}

proof fn lemma_decimal_fits(n: nat)
    requires
        n < u64::MAX,
    ensures
        fits(digest::decimal(n)),
{
    lemma_decimal(n);
    is_ascii_chars_encode_utf8(digest::decimal(n));
}

proof fn lemma_decimal_injective(a: nat, b: nat)
    requires
        digest::decimal(a) == digest::decimal(b),
    ensures
        a == b,
    decreases a,
{
    let s = digest::decimal(a);
    if a >= 10 {
        lemma_decimal(a / 10);
    }
    if b >= 10 {
        lemma_decimal(b / 10);
    }
    assert(s.last() == ('0' as int + a % 10) as char);
    assert(digest::decimal(b).last() == ('0' as int + b % 10) as char);
    assert(a % 10 == b % 10);
    if a >= 10 && b >= 10 {
        assert(digest::decimal(a).drop_last() =~= digest::decimal(a / 10));
        assert(digest::decimal(b).drop_last() =~= digest::decimal(b / 10));
        lemma_decimal_injective(a / 10, b / 10);
    }
}

proof fn lemma_names_fit(e: EventModel)
    ensures
        fits(e.interaction_id.text()),
        fits(e.relation.name()),
        fits(digest::decimal(e.evidence.version as nat)),
        fits(e.evidence.kind.name()),
        fits(e.origin.name()),
{
    let id = e.interaction_id.text();
    let h = digest::hex_text(models::uuid_bytes(e.interaction_id.value));
    digest::lemma_hex_text(models::uuid_bytes(e.interaction_id.value));
    assert forall|i: int| 0 <= i < id.len() implies (#[trigger] id[i]) as u32 <= 127 by {
        if i < 8 {
            assert(id[i] == h[i]);
        } else if 8 < i < 13 {
            assert(id[i] == h[i - 1]);
        } else if 13 < i < 18 {
            assert(id[i] == h[i - 2]);
        } else if 18 < i < 23 {
            assert(id[i] == h[i - 3]);
        } else if 23 < i {
            assert(id[i] == h[i - 4]);
        } else {
            assert(id[i] == '-');
        }
    }
    assert(is_ascii_chars(id));
    is_ascii_chars_encode_utf8(id);
    lemma_decimal_fits(e.evidence.version as nat);
    reveal_strlit("generated");
    reveal_strlit("temporal");
    reveal_strlit("verified");
    reveal_strlit("rewrite_exact");
    reveal_strlit("squash_exact");
    is_ascii_chars_encode_utf8(e.relation.name());
    reveal_strlit("locally_observed");
    reveal_strlit("imported_legacy");
    reveal_strlit("remote_assertion");
    is_ascii_chars_encode_utf8(e.evidence.kind.name());
    reveal_strlit("local_hook");
    reveal_strlit("local_linker");
    reveal_strlit("legacy_import");
    is_ascii_chars_encode_utf8(e.origin.name());
}

proof fn lemma_names_distinct(a: EventModel, b: EventModel)
    requires
        a.relation.name() == b.relation.name(),
        a.evidence.kind.name() == b.evidence.kind.name(),
        a.origin.name() == b.origin.name(),
    ensures
        a.relation == b.relation,
        a.evidence.kind == b.evidence.kind,
        a.origin == b.origin,
{
    reveal_strlit("generated");
    reveal_strlit("temporal");
    reveal_strlit("verified");
    reveal_strlit("rewrite_exact");
    reveal_strlit("squash_exact");
    reveal_strlit("locally_observed");
    reveal_strlit("imported_legacy");
    reveal_strlit("remote_assertion");
    reveal_strlit("local_hook");
    reveal_strlit("local_linker");
    reveal_strlit("legacy_import");
    assert("generated"@[0] == 'g' && "temporal"@[0] == 't' && "verified"@[0] == 'v'
        && "rewrite_exact"@[0] == 'r' && "squash_exact"@[0] == 's');
    assert("locally_observed"@[0] == 'l' && "imported_legacy"@[0] == 'i'
        && "remote_assertion"@[0] == 'r');
    assert("local_hook"@.len() == 10 && "local_linker"@.len() == 12 && "legacy_import"@.len() == 13
        && "remote_assertion"@.len() == 16);
}

/// Every text of an event fits its length prefix.
pub open spec fn event_fits(e: EventModel) -> bool {
    &&& fits(e.target_commit)
    &&& all_fit(order::sorted_set(e.sources))
    &&& opt_fits(e.old_oid)
    &&& opt_fits(e.new_oid)
    &&& opt_fits(e.range_id)
    &&& opt_fits(e.linked_by)
}

/// The bytes that the identity of an event is the digest of determine the event,
/// up to the order and repetition of its sources and the identity it carries.
pub proof fn law_event_payload_is_unambiguous(a: EventModel, b: EventModel)
    requires
        event_fits(a),
        event_fits(b),
        models::event_payload(a) == models::event_payload(b),
    ensures
        a.interaction_id == b.interaction_id,
        a.target_commit == b.target_commit,
        a.relation == b.relation,
        a.evidence == b.evidence,
        a.origin == b.origin,
        order::sorted_set(a.sources) == order::sorted_set(b.sources),
        a.old_oid == b.old_oid,
        a.new_oid == b.new_oid,
        a.range_id == b.range_id,
        a.linked_by == b.linked_by,
{
    lemma_names_fit(a);
    lemma_names_fit(b);
    let sa = order::sorted_set(a.sources);
    let sb = order::sorted_set(b.sources);
    let none = Seq::<u8>::empty();
    let a12 = models::optional_field(12, a.linked_by);
    let b12 = models::optional_field(12, b.linked_by);
    let a11 = models::optional_field(11, a.range_id) + a12;
    let b11 = models::optional_field(11, b.range_id) + b12;
    let a10 = models::optional_field(10, a.new_oid) + a11;
    let b10 = models::optional_field(10, b.new_oid) + b11;
    let a9 = models::optional_field(9, a.old_oid) + a10;
    let b9 = models::optional_field(9, b.old_oid) + b10;
    let a8 = digest::text_fields(8, sa) + a9;
    let b8 = digest::text_fields(8, sb) + b9;
    let a7 = digest::count_field(7, sa.len()) + a8;
    let b7 = digest::count_field(7, sb.len()) + b8;
    let a6 = digest::text_field(6, a.origin.name()) + a7;
    let b6 = digest::text_field(6, b.origin.name()) + b7;
    let a5 = digest::text_field(5, a.evidence.kind.name()) + a6;
    let b5 = digest::text_field(5, b.evidence.kind.name()) + b6;
    let a4 = digest::text_field(4, digest::decimal(a.evidence.version as nat)) + a5;
    let b4 = digest::text_field(4, digest::decimal(b.evidence.version as nat)) + b5;
    let a3 = digest::text_field(3, a.relation.name()) + a4;
    let b3 = digest::text_field(3, b.relation.name()) + b4;
    let a2 = digest::text_field(2, a.target_commit) + a3;
    let b2 = digest::text_field(2, b.target_commit) + b3;
    let a1 = digest::text_field(1, a.interaction_id.text()) + a2;
    let b1 = digest::text_field(1, b.interaction_id.text()) + b2;
    lemma_prefix(encode_utf8("cvc.derivation-event/canonical/v2\0"@), a1, b1);
    lemma_text_prefix(1, a.interaction_id.text(), b.interaction_id.text(), a2, b2);
    models::lemma_uuid_text_injective(a.interaction_id.value, b.interaction_id.value);
    lemma_text_prefix(2, a.target_commit, b.target_commit, a3, b3);
    lemma_text_prefix(3, a.relation.name(), b.relation.name(), a4, b4);
    lemma_text_prefix(
        4,
        digest::decimal(a.evidence.version as nat),
        digest::decimal(b.evidence.version as nat),
        a5,
        b5,
    );
    lemma_decimal_injective(a.evidence.version as nat, b.evidence.version as nat);
    lemma_text_prefix(5, a.evidence.kind.name(), b.evidence.kind.name(), a6, b6);
    lemma_text_prefix(6, a.origin.name(), b.origin.name(), a7, b7);
    lemma_names_distinct(a, b);
    lemma_count_prefix(7, sa.len(), sb.len(), a8, b8);
    lemma_fields_prefix(8, sa, sb, a9, b9);
    lemma_optional_prefix(9, a.old_oid, b.old_oid, a10, b10);
    lemma_optional_prefix(10, a.new_oid, b.new_oid, a11, b11);
    lemma_optional_prefix(11, a.range_id, b.range_id, a12, b12);
    assert(a12 + none =~= a12);
    assert(b12 + none =~= b12);
    lemma_optional_prefix(12, a.linked_by, b.linked_by, none, none);
}

/// The identity of an event does not depend on the order or repetition of its
/// sources, nor on the identity that it carries.
pub proof fn law_event_identity_ignores_source_order(a: EventModel, b: EventModel)
    requires
        forall|x: Seq<char>| #[trigger] a.sources.contains(x) <==> b.sources.contains(x),
        b == (EventModel { sources: b.sources, event_id: b.event_id, ..a }),
    ensures
        models::event_identity(a) == models::event_identity(b),
{
    order::lemma_sorted_set(a.sources);
    order::lemma_sorted_set(b.sources);
    order::lemma_strictly_sorted_unique(
        order::sorted_set(a.sources),
        order::sorted_set(b.sources),
    );
}

/// Every text of range evidence fits its length prefix.
pub open spec fn range_fits(r: RangeModel) -> bool {
    &&& fits(r.format)
    &&& fits(r.repository_identity)
    &&& fits(r.object_format)
    &&& fits(r.base_oid)
    &&& fits(r.tip_oid)
    &&& fits(r.base_tree_oid)
    &&& fits(r.result_tree_oid)
    &&& fits(r.changeset_algorithm)
    &&& fits(r.changeset_digest)
    &&& all_fit(r.commits)
}

/// The bytes that the identity of range evidence is the digest of determine the
/// evidence, up to the identity it carries.
pub proof fn law_range_payload_is_unambiguous(a: RangeModel, b: RangeModel)
    requires
        range_fits(a),
        range_fits(b),
        models::range_payload(a) == models::range_payload(b),
    ensures
        b == (RangeModel { range_id: b.range_id, ..a }),
{
    let none = Seq::<u8>::empty();
    lemma_decimal_fits(a.version as nat);
    lemma_decimal_fits(b.version as nat);
    let a12 = digest::text_fields(12, a.commits);
    let b12 = digest::text_fields(12, b.commits);
    let a11 = digest::count_field(11, a.commits.len()) + a12;
    let b11 = digest::count_field(11, b.commits.len()) + b12;
    let a10 = digest::text_field(10, a.changeset_digest) + a11;
    let b10 = digest::text_field(10, b.changeset_digest) + b11;
    let a9 = digest::text_field(9, a.changeset_algorithm) + a10;
    let b9 = digest::text_field(9, b.changeset_algorithm) + b10;
    let a8 = digest::text_field(8, a.result_tree_oid) + a9;
    let b8 = digest::text_field(8, b.result_tree_oid) + b9;
    let a7 = digest::text_field(7, a.base_tree_oid) + a8;
    let b7 = digest::text_field(7, b.base_tree_oid) + b8;
    let a6 = digest::text_field(6, a.tip_oid) + a7;
    let b6 = digest::text_field(6, b.tip_oid) + b7;
    let a5 = digest::text_field(5, a.base_oid) + a6;
    let b5 = digest::text_field(5, b.base_oid) + b6;
    let a4 = digest::text_field(4, a.object_format) + a5;
    let b4 = digest::text_field(4, b.object_format) + b5;
    let a3 = digest::text_field(3, a.repository_identity) + a4;
    let b3 = digest::text_field(3, b.repository_identity) + b4;
    let a2 = digest::text_field(2, digest::decimal(a.version as nat)) + a3;
    let b2 = digest::text_field(2, digest::decimal(b.version as nat)) + b3;
    let a1 = digest::text_field(1, a.format) + a2;
    let b1 = digest::text_field(1, b.format) + b2;
    lemma_prefix(encode_utf8("cvc.range-evidence/canonical/v1\0"@), a1, b1);
    lemma_text_prefix(1, a.format, b.format, a2, b2);
    lemma_text_prefix(
        2,
        digest::decimal(a.version as nat),
        digest::decimal(b.version as nat),
        a3,
        b3,
    );
    lemma_decimal_injective(a.version as nat, b.version as nat);
    lemma_text_prefix(3, a.repository_identity, b.repository_identity, a4, b4);
    lemma_text_prefix(4, a.object_format, b.object_format, a5, b5);
    lemma_text_prefix(5, a.base_oid, b.base_oid, a6, b6);
    lemma_text_prefix(6, a.tip_oid, b.tip_oid, a7, b7);
    lemma_text_prefix(7, a.base_tree_oid, b.base_tree_oid, a8, b8);
    lemma_text_prefix(8, a.result_tree_oid, b.result_tree_oid, a9, b9);
    lemma_text_prefix(9, a.changeset_algorithm, b.changeset_algorithm, a10, b10);
    lemma_text_prefix(10, a.changeset_digest, b.changeset_digest, a11, b11);
    lemma_count_prefix(11, a.commits.len(), b.commits.len(), a12, b12);
    assert(a12 + none =~= a12);
    assert(b12 + none =~= b12);
    lemma_fields_prefix(12, a.commits, b.commits, none, none);
}

} // verus!
