//! What the identity of a tree transition covers: the changes themselves, every
//! changed path with what it was and what it became, and nothing else.

use crate::changeset;
use crate::changeset::{ChangesetFault, DeltaModel, DeltaStatus, RecordModel, SideModel};
use vstd::multiset::*;
use vstd::prelude::*;
use vstd::relations::*;
use vstd::seq_lib::*;
use vstd::string::*;

verus! {

/// Mapping lists with the same elements gives lists with the same elements.
proof fn lemma_mapped<A, B>(a: Seq<A>, b: Seq<A>, f: spec_fn(A) -> B)
    requires
        a.to_multiset() == b.to_multiset(),
    ensures
        a.map_values(f).to_multiset() == b.map_values(f).to_multiset(),
    decreases a.len(),
{
    broadcast use group_to_multiset_ensures;
    broadcast use vstd::multiset::group_multiset_axioms;

    to_multiset_len(a);
    to_multiset_len(b);
    if a.len() == 0 {
        assert(a.map_values(f) =~= b.map_values(f));
    } else {
        let x = a.last();
        assert(a.contains(x));
        assert(a.to_multiset().count(x) > 0);
        assert(b.contains(x));
        let j = choose|j: int| 0 <= j < b.len() && b[j] == x;
        let shorter = a.drop_last();
        let rest = b.remove(j);
        assert(shorter =~= a.remove(a.len() - 1));
        to_multiset_remove(a, a.len() - 1);
        to_multiset_remove(b, j);
        lemma_mapped(shorter, rest, f);
        assert(a.map_values(f) =~= shorter.map_values(f).push(f(x)));
        to_multiset_build(shorter.map_values(f), f(x));
        assert(b.map_values(f) =~= rest.map_values(f).insert(j, f(x)));
        to_multiset_insert(rest.map_values(f), j, f(x));
    }
}

/// One side of a change: its mode, and the object it names, if it names one.
pub open spec fn end_of(side: SideModel) -> (u32, Option<Seq<u8>>) {
    (
        side.mode,
        if side.mode != 0 && exists|i: int| 0 <= i < side.oid.len() && side.oid[i] != 0 {
            Some(side.oid)
        } else {
            None
        },
    )
}

/// A change: the path that it is about, what happened to it, and both its sides.
pub open spec fn change_of(d: DeltaModel) -> (
    Option<Seq<u8>>,
    DeltaStatus,
    (u32, Option<Seq<u8>>),
    (u32, Option<Seq<u8>>),
) {
    (
        if d.status == DeltaStatus::Deleted {
            d.old.path
        } else {
            d.new.path
        },
        d.status,
        end_of(d.old),
        end_of(d.new),
    )
}

proof fn lemma_be32(a: u32, b: u32)
    requires
        changeset::be32(a) == changeset::be32(b),
    ensures
        a == b,
{
    let x = changeset::be32(a);
    let y = changeset::be32(b);
    assert(x[0] == y[0] && x[1] == y[1] && x[2] == y[2] && x[3] == y[3]);
    assert(a == b) by (bit_vector)
        requires
            ((a >> 24) & 0xff) as u8 == ((b >> 24) & 0xff) as u8,
            ((a >> 16) & 0xff) as u8 == ((b >> 16) & 0xff) as u8,
            ((a >> 8) & 0xff) as u8 == ((b >> 8) & 0xff) as u8,
            (a & 0xff) as u8 == (b & 0xff) as u8,
    ;
}

proof fn lemma_side(side: SideModel)
    ensures
        changeset::side_exists(side) <==> end_of(side).1 is Some,
{
    if side.mode != 0 {
        if exists|i: int| 0 <= i < side.oid.len() && side.oid[i] != 0 {
            let i = choose|i: int| 0 <= i < side.oid.len() && side.oid[i] != 0;
            assert(side.oid[i] != 0);
        }
    }
}

/// The value of an endpoint determines the side, and the side determines the value.
proof fn lemma_endpoint(a: SideModel, b: SideModel)
    requires
        !changeset::wrong_format(a),
        !changeset::wrong_format(b),
    ensures
        changeset::endpoint_value(a) == changeset::endpoint_value(b) <==> end_of(a) == end_of(b),
        changeset::endpoint_value(a).len() == 26,
{
    lemma_side(a);
    lemma_side(b);
    let x = changeset::endpoint_value(a);
    let y = changeset::endpoint_value(b);
    if x == y {
        assert(x[0] == y[0]);
        assert(changeset::be32(a.mode) =~= x.subrange(2, 6));
        assert(changeset::be32(b.mode) =~= y.subrange(2, 6));
        lemma_be32(a.mode, b.mode);
        if changeset::side_exists(a) {
            assert(x[0] == 1);
            if !changeset::side_exists(b) {
                assert(y[0] == 0);
            }
            assert(a.oid =~= x.skip(6));
            assert(b.oid =~= y.skip(6));
        } else {
            assert(x[0] == 0);
            if changeset::side_exists(b) {
                assert(y[0] == 1);
            }
        }
    }
}

/// A record determines the change, and the change determines the record.
proof fn lemma_record(a: DeltaModel, b: DeltaModel)
    requires
        changeset::record_of(a) is Ok,
    ensures
        changeset::record_of(b) is Ok ==> (changeset::record_of(a) == changeset::record_of(b)
            <==> change_of(a) == change_of(b)),
        change_of(a) == change_of(b) ==> changeset::record_of(b) is Ok,
        changeset::record_of(a)->Ok_0.path.len() <= changeset::MAX_PATH_BYTES,
        changeset::record_of(a)->Ok_0.old.len() == 26,
        changeset::record_of(a)->Ok_0.new.len() == 26,
{
    lemma_endpoint(a.old, a.old);
    lemma_endpoint(a.new, a.new);
    lemma_side(a.old);
    lemma_side(a.new);
    lemma_side(b.old);
    lemma_side(b.new);
    if changeset::record_of(b) is Ok {
        lemma_endpoint(a.old, b.old);
        lemma_endpoint(a.new, b.new);
    }
}

/// The identity covers the changes themselves: where the bytes that two identities
/// are digests of are the same, the two lists hold the same changes, up to their
/// order; the same paths, what happened to each, and for each the same mode and the
/// same object before and after.
pub proof fn law_identity_covers_the_changes(a: Seq<DeltaModel>, b: Seq<DeltaModel>)
    requires
        changeset::changeset_bytes(a) is Ok,
        changeset::changeset_bytes(a) == changeset::changeset_bytes(b),
    ensures
        ({
            let end = |side: SideModel|
                (
                    side.mode,
                    if side.mode != 0 && exists|i: int| 0 <= i < side.oid.len() && side.oid[i] != 0 {
                        Some(side.oid)
                    } else {
                        None
                    },
                );
            let change = |d: DeltaModel|
                (
                    if d.status == DeltaStatus::Deleted {
                        d.old.path
                    } else {
                        d.new.path
                    },
                    d.status,
                    end(d.old),
                    end(d.new),
                );
            &&& a.len() == b.len()
            &&& a.map_values(change).to_multiset() == b.map_values(change).to_multiset()
        }),
{
    let ra = lemma_records(a);
    let rb = lemma_records(b);
    let sa = ra.sort_by(changeset::record_le());
    let sb = rb.sort_by(changeset::record_le());
    changeset::lemma_record_order();
    ra.lemma_sort_by_ensures(changeset::record_le());
    rb.lemma_sort_by_ensures(changeset::record_le());
    lemma_measured(ra, sa);
    lemma_measured(rb, sb);
    changeset::law_changeset_is_unambiguous(sa, sb);
    assert(ra.to_multiset() == rb.to_multiset());
    to_multiset_len(ra);
    to_multiset_len(rb);
    let back = |r: RecordModel|
        change_of(
            choose|d: DeltaModel| #[trigger]
                changeset::record_of(d) == Ok::<RecordModel, ChangesetFault>(r),
        );
    lemma_mapped(ra, rb, back);
    let end = |side: SideModel|
        (
            side.mode,
            if side.mode != 0 && exists|i: int| 0 <= i < side.oid.len() && side.oid[i] != 0 {
                Some(side.oid)
            } else {
                None
            },
        );
    let change = |d: DeltaModel|
        (
            if d.status == DeltaStatus::Deleted {
                d.old.path
            } else {
                d.new.path
            },
            d.status,
            end(d.old),
            end(d.new),
        );
    assert forall|d: DeltaModel| #[trigger] change(d) == change_of(d) by {}
    assert(a.map_values(change) =~= ra.map_values(back)) by {
        assert forall|i: int| 0 <= i < a.len() implies change(a[i]) == back(ra[i]) by {
            lemma_back(a[i], ra[i]);
        }
    }
    assert(b.map_values(change) =~= rb.map_values(back)) by {
        assert forall|i: int| 0 <= i < b.len() implies change(b[i]) == back(rb[i]) by {
            lemma_back(b[i], rb[i]);
        }
    }
}

proof fn lemma_back(d: DeltaModel, r: RecordModel)
    requires
        changeset::record_of(d) == Ok::<RecordModel, ChangesetFault>(r),
    ensures
        change_of(d) == change_of(
            choose|x: DeltaModel| #[trigger]
                changeset::record_of(x) == Ok::<RecordModel, ChangesetFault>(r),
        ),
{
    let x = choose|x: DeltaModel| #[trigger]
        changeset::record_of(x) == Ok::<RecordModel, ChangesetFault>(r);
    lemma_record(d, x);
}

proof fn lemma_records(a: Seq<DeltaModel>) -> (records: Seq<RecordModel>)
    requires
        changeset::changeset_bytes(a) is Ok,
    ensures
        changeset::records_of(a, a.len()) == Ok::<Seq<RecordModel>, ChangesetFault>(records),
        records.len() == a.len() <= changeset::MAX_DELTAS,
        forall|i: int|
            0 <= i < a.len() ==> changeset::record_of(#[trigger] a[i]) == Ok::<
                RecordModel,
                ChangesetFault,
            >(records[i]),
        forall|i: int|
            0 <= i < a.len() ==> (#[trigger] records[i]).path.len() <= u64::MAX
                && records[i].old.len() <= u64::MAX && records[i].new.len() <= u64::MAX,
{
    let records = changeset::records_of(a, a.len())->Ok_0;
    changeset::lemma_records_mapped(a, a.len());
    assert(a.take(a.len() as int) =~= a);
    assert forall|i: int| 0 <= i < a.len() implies changeset::record_of(#[trigger] a[i]) == Ok::<
        RecordModel,
        ChangesetFault,
    >(records[i]) && records[i].path.len() <= u64::MAX && records[i].old.len() <= u64::MAX
        && records[i].new.len() <= u64::MAX by {
        assert(changeset::record_of(a[i]) is Ok);
        lemma_record(a[i], a[i]);
    }
    assert forall|i: int| 0 <= i < a.len() implies (#[trigger] records[i]).path.len() <= u64::MAX
        && records[i].old.len() <= u64::MAX && records[i].new.len() <= u64::MAX by {
        assert(changeset::record_of(a[i]) is Ok);
    }
    records
}

proof fn lemma_measured(records: Seq<RecordModel>, sorted: Seq<RecordModel>)
    requires
        records.to_multiset() == sorted.to_multiset(),
        forall|i: int|
            0 <= i < records.len() ==> (#[trigger] records[i]).path.len() <= u64::MAX
                && records[i].old.len() <= u64::MAX && records[i].new.len() <= u64::MAX,
    ensures
        changeset::measured(sorted),
        sorted.len() == records.len(),
{
    broadcast use group_to_multiset_ensures;

    to_multiset_len(records);
    to_multiset_len(sorted);
    assert forall|i: int| 0 <= i < sorted.len() implies (#[trigger] sorted[i]).path.len()
        <= u64::MAX && sorted[i].old.len() <= u64::MAX && sorted[i].new.len() <= u64::MAX by {
        assert(sorted.contains(sorted[i]));
        assert(sorted.to_multiset().count(sorted[i]) > 0);
        assert(records.contains(sorted[i]));
        let k = choose|k: int| 0 <= k < records.len() && records[k] == sorted[i];
        assert(records[k].path.len() <= u64::MAX);
    }
}

/// The identity covers nothing else: lists that hold the same changes, up to their
/// order, have the same identity, or both have none.
pub proof fn law_same_changes_have_one_identity(a: Seq<DeltaModel>, b: Seq<DeltaModel>)
    requires
        changeset::changeset_bytes(a) is Ok,
        ({
            let end = |side: SideModel|
                (
                    side.mode,
                    if side.mode != 0 && exists|i: int| 0 <= i < side.oid.len() && side.oid[i] != 0 {
                        Some(side.oid)
                    } else {
                        None
                    },
                );
            let change = |d: DeltaModel|
                (
                    if d.status == DeltaStatus::Deleted {
                        d.old.path
                    } else {
                        d.new.path
                    },
                    d.status,
                    end(d.old),
                    end(d.new),
                );
            a.map_values(change).to_multiset() == b.map_values(change).to_multiset()
        }),
    ensures
        changeset::changeset_bytes(a) == changeset::changeset_bytes(b),
{
    broadcast use group_to_multiset_ensures;

    let end = |side: SideModel|
        (
            side.mode,
            if side.mode != 0 && exists|i: int| 0 <= i < side.oid.len() && side.oid[i] != 0 {
                Some(side.oid)
            } else {
                None
            },
        );
    let change = |d: DeltaModel|
        (
            if d.status == DeltaStatus::Deleted {
                d.old.path
            } else {
                d.new.path
            },
            d.status,
            end(d.old),
            end(d.new),
        );
    assert forall|d: DeltaModel| #[trigger] change(d) == change_of(d) by {}
    let ca = a.map_values(change);
    let cb = b.map_values(change);
    to_multiset_len(ca);
    to_multiset_len(cb);
    let ra = lemma_records(a);
    let forth = |c: (
        Option<Seq<u8>>,
        DeltaStatus,
        (u32, Option<Seq<u8>>),
        (u32, Option<Seq<u8>>),
    )|
        changeset::record_of(
            choose|d: DeltaModel| #[trigger]
                change_of(d) == c && changeset::record_of(d) is Ok,
        )->Ok_0;
    assert forall|i: int| 0 <= i < b.len() implies changeset::record_of(#[trigger] b[i]) is Ok
        && changeset::record_of(b[i])->Ok_0 == forth(cb[i]) by {
        assert(cb.contains(cb[i]));
        assert(cb.to_multiset().count(cb[i]) > 0);
        assert(ca.contains(cb[i]));
        let k = choose|k: int| 0 <= k < ca.len() && ca[k] == cb[i];
        assert(change_of(a[k]) == change_of(b[i]));
        assert(changeset::record_of(a[k]) is Ok);
        lemma_record(a[k], b[i]);
        lemma_forth(b[i]);
    }
    assert forall|i: int| 0 <= i < a.len() implies ra[i] == forth(#[trigger] ca[i]) by {
        assert(changeset::record_of(a[i]) is Ok);
        lemma_forth(a[i]);
    }
    changeset::lemma_records_found(b, b.len());
    changeset::lemma_records_mapped(b, b.len());
    assert(b.take(b.len() as int) =~= b);
    let rb = changeset::records_of(b, b.len())->Ok_0;
    lemma_mapped(ca, cb, forth);
    assert(ca.map_values(forth) =~= ra);
    assert(cb.map_values(forth) =~= rb) by {
        assert forall|i: int| 0 <= i < b.len() implies rb[i] == forth(cb[i]) by {
            assert(changeset::record_of(b[i]) is Ok);
        }
    }
    changeset::lemma_record_order();
    ra.lemma_sort_by_ensures(changeset::record_le());
    rb.lemma_sort_by_ensures(changeset::record_le());
    lemma_sorted_unique(
        ra.sort_by(changeset::record_le()),
        rb.sort_by(changeset::record_le()),
        changeset::record_le(),
    );
}

proof fn lemma_forth(d: DeltaModel)
    requires
        changeset::record_of(d) is Ok,
    ensures
        changeset::record_of(d) == changeset::record_of(
            choose|x: DeltaModel| #[trigger]
                change_of(x) == change_of(d) && changeset::record_of(x) is Ok,
        ),
        changeset::record_of(
            choose|x: DeltaModel| #[trigger]
                change_of(x) == change_of(d) && changeset::record_of(x) is Ok,
        ) is Ok,
{
    assert(change_of(d) == change_of(d) && changeset::record_of(d) is Ok);
    let x = choose|x: DeltaModel| #[trigger]
        change_of(x) == change_of(d) && changeset::record_of(x) is Ok;
    lemma_record(d, x);
}

/// Two edits of one path from one side to different objects are different
/// changesets.
pub proof fn law_other_content_is_another_changeset(a: DeltaModel, b: DeltaModel)
    requires
        changeset::changeset_bytes(seq![a]) is Ok,
        changeset::changeset_bytes(seq![b]) is Ok,
        a.status == b.status,
        a.old.mode != b.old.mode || a.new.mode != b.new.mode || (a.old.mode != 0 && a.old.oid
            != b.old.oid && exists|i: int| 0 <= i < a.old.oid.len() && a.old.oid[i] != 0) || (
        a.new.mode != 0 && a.new.oid != b.new.oid && exists|i: int|
            0 <= i < a.new.oid.len() && a.new.oid[i] != 0),
    ensures
        changeset::changeset_bytes(seq![a]) != changeset::changeset_bytes(seq![b]),
{
    if changeset::changeset_bytes(seq![a]) == changeset::changeset_bytes(seq![b]) {
        law_identity_covers_the_changes(seq![a], seq![b]);
        let ra = lemma_records(seq![a]);
        let rb = lemma_records(seq![b]);
        assert(seq![a][0] == a && seq![b][0] == b);
        let sa = ra.sort_by(changeset::record_le());
        let sb = rb.sort_by(changeset::record_le());
        changeset::lemma_record_order();
        ra.lemma_sort_by_ensures(changeset::record_le());
        rb.lemma_sort_by_ensures(changeset::record_le());
        lemma_measured(ra, sa);
        lemma_measured(rb, sb);
        changeset::law_changeset_is_unambiguous(sa, sb);
        lemma_single(ra, rb);
        lemma_record(a, b);
    }
}

proof fn lemma_single(a: Seq<RecordModel>, b: Seq<RecordModel>)
    requires
        a.len() == 1,
        b.len() == 1,
        a.to_multiset() == b.to_multiset(),
    ensures
        a == b,
{
    broadcast use group_to_multiset_ensures;

    assert(a.contains(a[0]));
    assert(a.to_multiset().count(a[0]) > 0);
    assert(b.contains(a[0]));
    assert(a =~= b);
}

} // verus!
