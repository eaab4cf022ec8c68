//! Finding, adding and removing entries of an exchange tree.

use crate::models::{DerivationEvent, EventModel, RangeEvidence, RangeModel};
use crate::text::text_equal;
use crate::textset::TextSet;
use crate::tree;
use crate::tree::{
    BlobModel, EntryKind, EntryModel, Leaf, LeafModel, Namespace, NamespaceModel, NodeBlob,
    ObjectModel, Shard, ShardModel, TreeEntry, TreeObject,
};
use vstd::hash_set::StringHashSet;
use vstd::prelude::*;
use vstd::string::*;

verus! {

/// The first shard with this name, from position `k` on.
pub open spec fn find_shard<M>(shards: Seq<ShardModel<M>>, name: Seq<char>, k: int) -> Option<int>
    decreases shards.len() - k,
{
    if k < 0 || k >= shards.len() {
        None
    } else if shards[k].name == name {
        Some(k)
    } else {
        find_shard(shards, name, k + 1)
    }
}

/// The first leaf with this name, from position `k` on.
pub open spec fn find_leaf<M>(leaves: Seq<LeafModel<M>>, name: Seq<char>, k: int) -> Option<int>
    decreases leaves.len() - k,
{
    if k < 0 || k >= leaves.len() {
        None
    } else if leaves[k].name == name {
        Some(k)
    } else {
        find_leaf(leaves, name, k + 1)
    }
}

/// The entry of a namespace under `shard/file`.
pub open spec fn lookup<M>(
    ns: Option<NamespaceModel<M>>,
    shard: Seq<char>,
    file: Seq<char>,
) -> Option<LeafModel<M>> {
    match ns {
        None => None,
        Some(n) => if n.kind != EntryKind::Tree {
            None
        } else {
            match find_shard(n.shards, shard, 0) {
                None => None,
                Some(k) => if n.shards[k].kind != EntryKind::Tree {
                    None
                } else {
                    match find_leaf(n.shards[k].leaves, file, 0) {
                        None => None,
                        Some(j) => Some(n.shards[k].leaves[j]),
                    }
                },
            }
        },
    }
}

/// A namespace with an entry added in a shard.
pub open spec fn placed<M>(
    ns: Option<NamespaceModel<M>>,
    shard: Seq<char>,
    leaf: LeafModel<M>,
) -> NamespaceModel<M> {
    let fresh = ShardModel { name: shard, kind: EntryKind::Tree, leaves: seq![leaf] };
    if ns is None || (ns->0).kind != EntryKind::Tree {
        NamespaceModel { kind: EntryKind::Tree, shards: seq![fresh] }
    } else {
        let n = ns->0;
        match find_shard(n.shards, shard, 0) {
            None => NamespaceModel { kind: EntryKind::Tree, shards: n.shards.push(fresh) },
            Some(k) => if n.shards[k].kind != EntryKind::Tree {
                NamespaceModel { kind: EntryKind::Tree, shards: n.shards.update(k, fresh) }
            } else {
                NamespaceModel {
                    kind: EntryKind::Tree,
                    shards: n.shards.update(
                        k,
                        ShardModel {
                            leaves: n.shards[k].leaves.push(leaf),
                            ..n.shards[k]
                        },
                    ),
                }
            },
        }
    }
}

pub fn shard_at<T: View>(shards: &Vec<Shard<T>>, name: &str) -> (r: Option<usize>)
    ensures
        match r {
            Some(k) => k < shards@.len() && find_shard(tree::shard_models(shards@), name@, 0) == Some(
                k as int,
            ),
            None => find_shard(tree::shard_models(shards@), name@, 0) is None,
        },
{
    let ghost s = tree::shard_models(shards@);
    let mut k: usize = 0;
    while k < shards.len()
        invariant
            k <= shards.len(),
            s == tree::shard_models(shards@),
            find_shard(s, name@, 0) == find_shard(s, name@, k as int),
        decreases shards.len() - k,
    {
        assert(s[k as int] == shards@[k as int]@);
        if text_equal(shards[k].name.as_str(), name) {
            return Some(k);
        }
        k += 1;
    }
    None
}

pub fn leaf_at<T: View>(leaves: &Vec<Leaf<T>>, name: &str) -> (r: Option<usize>)
    ensures
        match r {
            Some(k) => k < leaves@.len() && find_leaf(tree::leaf_models(leaves@), name@, 0) == Some(
                k as int,
            ),
            None => find_leaf(tree::leaf_models(leaves@), name@, 0) is None,
        },
{
    let ghost s = tree::leaf_models(leaves@);
    let mut k: usize = 0;
    while k < leaves.len()
        invariant
            k <= leaves.len(),
            s == tree::leaf_models(leaves@),
            find_leaf(s, name@, 0) == find_leaf(s, name@, k as int),
        decreases leaves.len() - k,
    {
        assert(s[k as int] == leaves@[k as int]@);
        if text_equal(leaves[k].name.as_str(), name) {
            return Some(k);
        }
        k += 1;
    }
    None
}

/// The entry of a namespace under `shard/file`.
pub fn lookup_leaf<'a, T: View>(ns: &'a Option<Namespace<T>>, shard: &str, file: &str) -> (r: Option<
    &'a Leaf<T>,
>)
    ensures
        match r {
            Some(l) => lookup(tree::opt_namespace(*ns), shard@, file@) == Some(l@),
            None => lookup(tree::opt_namespace(*ns), shard@, file@) is None,
        },
{
    match ns {
        None => None,
        Some(n) => {
            if n.kind != EntryKind::Tree {
                return None;
            }
            match shard_at(&n.shards, shard) {
                None => None,
                Some(k) => {
                    let s = &n.shards[k];
                    assert(n@.shards[k as int] == s@);
                    if s.kind != EntryKind::Tree {
                        return None;
                    }
                    match leaf_at(&s.leaves, file) {
                        None => None,
                        Some(j) => {
                            assert(s@.leaves[j as int] == s.leaves@[j as int]@);
                            Some(&s.leaves[j])
                        },
                    }
                },
            }
        },
    }
}

/// Adds an entry in a shard of a namespace.
pub fn place_leaf<T: View>(ns: Option<Namespace<T>>, shard: String, leaf: Leaf<T>) -> (r: Namespace<T>)
    ensures
        r@ == placed(tree::opt_namespace(ns), shard@, leaf@),
{
    let ghost before = tree::opt_namespace(ns);
    let ghost lm = leaf@;
    let mut n = match ns {
        Some(n) => if n.kind == EntryKind::Tree {
            n
        } else {
            let mut leaves: Vec<Leaf<T>> = Vec::new();
            leaves.push(leaf);
            let mut shards: Vec<Shard<T>> = Vec::new();
            shards.push(Shard { name: shard, kind: EntryKind::Tree, leaves });
            let r = Namespace { kind: EntryKind::Tree, shards };
            proof {
                assert(tree::leaf_models(r.shards@[0].leaves@) =~= seq![lm]);
                assert(r@.shards =~= placed(before, shard@, lm).shards);
            }
            return r;
        },
        None => {
            let mut leaves: Vec<Leaf<T>> = Vec::new();
            leaves.push(leaf);
            let mut shards: Vec<Shard<T>> = Vec::new();
            shards.push(Shard { name: shard, kind: EntryKind::Tree, leaves });
            let r = Namespace { kind: EntryKind::Tree, shards };
            proof {
                assert(tree::leaf_models(r.shards@[0].leaves@) =~= seq![lm]);
                assert(r@.shards =~= placed(before, shard@, lm).shards);
            }
            return r;
        },
    };
    let ghost ss = n@.shards;
    match shard_at(&n.shards, shard.as_str()) {
        None => {
            let mut leaves: Vec<Leaf<T>> = Vec::new();
            leaves.push(leaf);
            n.shards.push(Shard { name: shard, kind: EntryKind::Tree, leaves });
            proof {
                assert(tree::leaf_models(n.shards@[ss.len() as int].leaves@) =~= seq![lm]);
                assert(n@.shards =~= placed(before, shard@, lm).shards);
            }
        },
        Some(k) => {
            assert(ss[k as int] == n.shards@[k as int]@);
            let mut s = n.shards.remove(k);
            if s.kind != EntryKind::Tree {
                let mut leaves: Vec<Leaf<T>> = Vec::new();
                leaves.push(leaf);
                n.shards.insert(k, Shard { name: shard, kind: EntryKind::Tree, leaves });
                proof {
                    assert(tree::leaf_models(n.shards@[k as int].leaves@) =~= seq![lm]);
                    assert(n@.shards =~= placed(before, shard@, lm).shards);
                }
            } else {
                let ghost old_leaves = tree::leaf_models(s.leaves@);
                s.leaves.push(leaf);
                assert(tree::leaf_models(s.leaves@) =~= old_leaves.push(lm));
                n.shards.insert(k, s);
                assert(n@.shards =~= placed(before, shard@, lm).shards);
            }
        },
    }
    n
}

/// A leaf whose event falls.
pub open spec fn falls_in(l: LeafModel<EventModel>, removed: Set<Seq<char>>) -> bool {
    l.record matches Some(e) && removed.contains(e.event_id)
}

/// A leaf whose range is referenced.
pub open spec fn referenced_in(l: LeafModel<RangeModel>, referenced: Set<Seq<char>>) -> bool {
    l.record matches Some(r) && referenced.contains(r.range_id)
}

/// Removes the leaves that have one of the given names.
pub(crate) fn drop_named(leaves: &mut Vec<Leaf<()>>, dead: &TextSet)
    requires
        dead.wf(),
    ensures
        tree::leaf_models(final(leaves)@) == tree::leaf_models(old(leaves)@).filter((|l: LeafModel<()>| !dead@.contains(l.name))),
{
    let ghost s = tree::leaf_models(leaves@);
    let ghost keep = (|l: LeafModel<()>| !dead@.contains(l.name));
    let ghost mut j: int = 0;
    let mut i: usize = 0;
    assert(s.take(0).filter(keep) =~= tree::leaf_models(leaves@).take(0)) by {
        reveal(Seq::filter);
    }
    assert(s.skip(0) =~= s);
    assert(tree::leaf_models(leaves@).skip(0) =~= s);
    while i < leaves.len()
        invariant
            i <= leaves.len(),
            dead.wf(),
            0 <= j <= s.len(),
            keep == (|l: LeafModel<()>| !dead@.contains(l.name)),
            tree::leaf_models(leaves@).take(i as int) == s.take(j).filter(keep),
            tree::leaf_models(leaves@).skip(i as int) == s.skip(j),
        decreases leaves.len() - i,
    {
        let ghost cur = tree::leaf_models(leaves@);
        proof {
            reveal(Seq::filter);
            assert(cur.skip(i as int).len() == s.skip(j).len());
            assert(cur.skip(i as int).len() > 0);
            assert(j < s.len());
            assert(cur.skip(i as int)[0] == cur[i as int]);
            assert(s.skip(j)[0] == s[j]);
            assert(cur[i as int] == leaves@[i as int]@);
            assert(s.take(j + 1).drop_last() =~= s.take(j));
            assert(s.take(j + 1).last() == s[j]);
            assert(s.skip(j).drop_first() =~= s.skip(j + 1));
        }
        let gone = dead.contains(leaves[i].name.as_str());
        if gone {
            leaves.remove(i);
            proof {
                let now = tree::leaf_models(leaves@);
                assert(now.take(i as int) =~= cur.take(i as int));
                assert(now.skip(i as int) =~= cur.skip(i as int).drop_first());
            }
        } else {
            i += 1;
            proof {
                assert(cur.take(i as int) =~= cur.take(i - 1).push(s[j]));
                assert(cur.skip(i as int) =~= cur.skip(i - 1).drop_first());
            }
        }
        proof {
            j = j + 1;
        }
    }
    proof {
        let cur = tree::leaf_models(leaves@);
        assert(cur.skip(i as int).len() == 0);
        assert(s.skip(j).len() == 0);
        assert(s.take(j) =~= s);
        assert(cur.take(i as int) =~= cur);
    }
}

/// Removes the leaves that hold a fallen event.
pub(crate) fn drop_fallen(leaves: &mut Vec<Leaf<DerivationEvent>>, removed: &StringHashSet)
    ensures
        tree::leaf_models(final(leaves)@) == tree::leaf_models(old(leaves)@).filter((|l: LeafModel<EventModel>| !falls_in(l, removed@))),
{
    let ghost s = tree::leaf_models(leaves@);
    let ghost keep = (|l: LeafModel<EventModel>| !falls_in(l, removed@));
    let ghost mut j: int = 0;
    let mut i: usize = 0;
    assert(s.take(0).filter(keep) =~= tree::leaf_models(leaves@).take(0)) by {
        reveal(Seq::filter);
    }
    assert(s.skip(0) =~= s);
    assert(tree::leaf_models(leaves@).skip(0) =~= s);
    while i < leaves.len()
        invariant
            i <= leaves.len(),
            0 <= j <= s.len(),
            keep == (|l: LeafModel<EventModel>| !falls_in(l, removed@)),
            tree::leaf_models(leaves@).take(i as int) == s.take(j).filter(keep),
            tree::leaf_models(leaves@).skip(i as int) == s.skip(j),
        decreases leaves.len() - i,
    {
        let ghost cur = tree::leaf_models(leaves@);
        proof {
            reveal(Seq::filter);
            assert(cur.skip(i as int).len() == s.skip(j).len());
            assert(cur.skip(i as int).len() > 0);
            assert(j < s.len());
            assert(cur.skip(i as int)[0] == cur[i as int]);
            assert(s.skip(j)[0] == s[j]);
            assert(cur[i as int] == leaves@[i as int]@);
            assert(s.take(j + 1).drop_last() =~= s.take(j));
            assert(s.take(j + 1).last() == s[j]);
            assert(s.skip(j).drop_first() =~= s.skip(j + 1));
        }
        let gone = match &leaves[i].record {
            Some(e) => removed.contains(e.event_id.as_str()),
            None => false,
        };
        if gone {
            leaves.remove(i);
            proof {
                let now = tree::leaf_models(leaves@);
                assert(now.take(i as int) =~= cur.take(i as int));
                assert(now.skip(i as int) =~= cur.skip(i as int).drop_first());
            }
        } else {
            i += 1;
            proof {
                assert(cur.take(i as int) =~= cur.take(i - 1).push(s[j]));
                assert(cur.skip(i as int) =~= cur.skip(i - 1).drop_first());
            }
        }
        proof {
            j = j + 1;
        }
    }
    proof {
        let cur = tree::leaf_models(leaves@);
        assert(cur.skip(i as int).len() == 0);
        assert(s.skip(j).len() == 0);
        assert(s.take(j) =~= s);
        assert(cur.take(i as int) =~= cur);
    }
}

/// Removes the leaves that hold no referenced range.
pub(crate) fn drop_unreferenced(leaves: &mut Vec<Leaf<RangeEvidence>>, referenced: &TextSet)
    requires
        referenced.wf(),
    ensures
        tree::leaf_models(final(leaves)@) == tree::leaf_models(old(leaves)@).filter((|l: LeafModel<RangeModel>| referenced_in(l, referenced@))),
{
    let ghost s = tree::leaf_models(leaves@);
    let ghost keep = (|l: LeafModel<RangeModel>| referenced_in(l, referenced@));
    let ghost mut j: int = 0;
    let mut i: usize = 0;
    assert(s.take(0).filter(keep) =~= tree::leaf_models(leaves@).take(0)) by {
        reveal(Seq::filter);
    }
    assert(s.skip(0) =~= s);
    assert(tree::leaf_models(leaves@).skip(0) =~= s);
    while i < leaves.len()
        invariant
            i <= leaves.len(),
            referenced.wf(),
            0 <= j <= s.len(),
            keep == (|l: LeafModel<RangeModel>| referenced_in(l, referenced@)),
            tree::leaf_models(leaves@).take(i as int) == s.take(j).filter(keep),
            tree::leaf_models(leaves@).skip(i as int) == s.skip(j),
        decreases leaves.len() - i,
    {
        let ghost cur = tree::leaf_models(leaves@);
        proof {
            reveal(Seq::filter);
            assert(cur.skip(i as int).len() == s.skip(j).len());
            assert(cur.skip(i as int).len() > 0);
            assert(j < s.len());
            assert(cur.skip(i as int)[0] == cur[i as int]);
            assert(s.skip(j)[0] == s[j]);
            assert(cur[i as int] == leaves@[i as int]@);
            assert(s.take(j + 1).drop_last() =~= s.take(j));
            assert(s.take(j + 1).last() == s[j]);
            assert(s.skip(j).drop_first() =~= s.skip(j + 1));
        }
        let gone = match &leaves[i].record {
            Some(r) => !referenced.contains(r.range_id.as_str()),
            None => true,
        };
        if gone {
            leaves.remove(i);
            proof {
                let now = tree::leaf_models(leaves@);
                assert(now.take(i as int) =~= cur.take(i as int));
                assert(now.skip(i as int) =~= cur.skip(i as int).drop_first());
            }
        } else {
            i += 1;
            proof {
                assert(cur.take(i as int) =~= cur.take(i - 1).push(s[j]));
                assert(cur.skip(i as int) =~= cur.skip(i - 1).drop_first());
            }
        }
        proof {
            j = j + 1;
        }
    }
    proof {
        let cur = tree::leaf_models(leaves@);
        assert(cur.skip(i as int).len() == 0);
        assert(s.skip(j).len() == 0);
        assert(s.take(j) =~= s);
        assert(cur.take(i as int) =~= cur);
    }
}

/// The first entry with this name, from position `k` on.
pub open spec fn find_entry(entries: Seq<EntryModel>, name: Seq<char>, k: int) -> Option<int>
    decreases entries.len() - k,
{
    if k < 0 || k >= entries.len() {
        None
    } else if entries[k].name == Some(name) {
        Some(k)
    } else {
        find_entry(entries, name, k + 1)
    }
}

/// The tree under a name, where there is one.
pub open spec fn subtree(entries: Seq<EntryModel>, name: Seq<char>) -> Option<Seq<EntryModel>> {
    match find_entry(entries, name, 0) {
        None => None,
        Some(k) => match entries[k].object {
            ObjectModel::Tree(sub) => Some(sub),
            _ => None,
        },
    }
}

/// The entries of the tree under a name, none where there is no tree.
pub open spec fn children(entries: Seq<EntryModel>, name: Seq<char>) -> Seq<EntryModel> {
    match subtree(entries, name) {
        Some(sub) => sub,
        None => Seq::empty(),
    }
}

/// The entries with an object set under a name.
pub open spec fn with_child(
    entries: Seq<EntryModel>,
    name: Seq<char>,
    object: ObjectModel,
) -> Seq<EntryModel> {
    let entry = EntryModel { name: Some(name), object };
    match find_entry(entries, name, 0) {
        Some(k) => entries.update(k, entry),
        None => entries.push(entry),
    }
}

/// The contents of what stands under a name.
pub open spec fn object_model(o: TreeObject) -> ObjectModel {
    tree::entry_model(TreeEntry { name: None, object: o }).object
}

proof fn lemma_object_model(e: TreeEntry)
    ensures
        tree::entry_model(e).object == object_model(e.object),
{
    let other = TreeEntry { name: None, object: e.object };
    match e.object {
        TreeObject::Tree(sub) => {
            assert(tree::entry_model(e).object->Tree_0 =~= tree::entry_model(other).object->Tree_0);
        },
        _ => {},
    }
}

pub proof fn lemma_find_entry(entries: Seq<EntryModel>, name: Seq<char>, k: int)
    requires
        0 <= k <= entries.len(),
    ensures
        match find_entry(entries, name, k) {
            Some(j) => k <= j < entries.len() && entries[j].name == Some(name) && forall|i: int|
                k <= i < j ==> (#[trigger] entries[i]).name != Some(name),
            None => forall|i: int|
                k <= i < entries.len() ==> (#[trigger] entries[i]).name != Some(name),
        },
    decreases entries.len() - k,
{
    if k < entries.len() && entries[k].name != Some(name) {
        lemma_find_entry(entries, name, k + 1);
    }
}

pub proof fn lemma_found_entry(entries: Seq<EntryModel>, name: Seq<char>, k: int, j: int)
    requires
        0 <= k <= j < entries.len(),
        entries[j].name == Some(name),
        forall|i: int| k <= i < j ==> (#[trigger] entries[i]).name != Some(name),
    ensures
        find_entry(entries, name, k) == Some(j),
    decreases j - k,
{
    if k < j {
        lemma_found_entry(entries, name, k + 1, j);
    }
}

/// Where the first entry with this name stands.
pub fn entry_at(entries: &Vec<TreeEntry>, name: &str) -> (r: Option<usize>)
    ensures
        match r {
            Some(k) => k < entries@.len() && find_entry(tree::entry_models(entries@), name@, 0)
                == Some(k as int),
            None => find_entry(tree::entry_models(entries@), name@, 0) is None,
        },
{
    let ghost s = tree::entry_models(entries@);
    let mut k: usize = 0;
    while k < entries.len()
        invariant
            k <= entries.len(),
            s == tree::entry_models(entries@),
            find_entry(s, name@, 0) == find_entry(s, name@, k as int),
        decreases entries.len() - k,
    {
        assert(s[k as int] == tree::entry_model(entries@[k as int]));
        let found = match &entries[k].name {
            Some(n) => text_equal(n.as_str(), name),
            None => false,
        };
        if found {
            return Some(k);
        }
        k += 1;
    }
    None
}

/// The tree under a name, where there is one.
pub fn subtree_of<'a>(entries: &'a Vec<TreeEntry>, name: &str) -> (r: Option<&'a Vec<TreeEntry>>)
    ensures
        match r {
            Some(v) => subtree(tree::entry_models(entries@), name@) == Some(tree::entry_models(v@)),
            None => subtree(tree::entry_models(entries@), name@) is None,
        },
{
    match entry_at(entries, name) {
        None => None,
        Some(k) => {
            assert(tree::entry_models(entries@)[k as int] == tree::entry_model(entries@[k as int]));
            match &entries[k].object {
                TreeObject::Tree(sub) => {
                    assert(tree::entry_model(entries@[k as int]).object->Tree_0
                        =~= tree::entry_models(sub@));
                    Some(sub)
                },
                _ => None,
            }
        },
    }
}

/// Takes the tree under a name out of its place, which keeps its name.
pub(crate) fn take_children(entries: &mut Vec<TreeEntry>, name: &str) -> (r: Vec<TreeEntry>)
    ensures
        tree::entry_models(r@) == children(tree::entry_models(old(entries)@), name@),
        forall|o: ObjectModel| #[trigger]
            with_child(tree::entry_models(final(entries)@), name@, o) == with_child(
                tree::entry_models(old(entries)@),
                name@,
                o,
            ),
{
    let ghost before = tree::entry_models(entries@);
    match entry_at(entries, name) {
        None => {
            let r: Vec<TreeEntry> = Vec::new();
            assert(tree::entry_models(r@) =~= Seq::empty());
            r
        },
        Some(k) => {
            assert(before[k as int] == tree::entry_model(entries@[k as int]));
            let ghost taken = entries@[k as int];
            let entry = entries.remove(k);
            proof {
                lemma_find_entry(before, name@, 0);
            }
            let sub: Vec<TreeEntry> = match entry.object {
                TreeObject::Tree(sub) => {
                    assert(tree::entry_model(taken).object->Tree_0 =~= tree::entry_models(sub@));
                    sub
                },
                _ => {
                    let r: Vec<TreeEntry> = Vec::new();
                    assert(tree::entry_models(r@) =~= Seq::empty());
                    r
                },
            };
            entries.insert(k, TreeEntry { name: entry.name, object: TreeObject::Other });
            proof {
                let after = tree::entry_models(entries@);
                assert forall|i: int| 0 <= i < before.len() && i != k implies #[trigger] after[i]
                    == before[i] by {
                    if i < k {
                        assert(entries@[i] == old(entries)@[i]);
                    } else {
                        assert(entries@[i] == old(entries)@[i]);
                    }
                }
                assert(after[k as int].name == Some(name@));
                lemma_found_entry(after, name@, 0, k as int);
                assert forall|o: ObjectModel| #[trigger]
                    with_child(after, name@, o) == with_child(before, name@, o) by {
                    assert(with_child(after, name@, o) =~= with_child(before, name@, o));
                }
            }
            sub
        },
    }
}

/// Sets an object under a name.
pub(crate) fn set_child(entries: &mut Vec<TreeEntry>, name: &str, object: TreeObject)
    ensures
        tree::entry_models(final(entries)@) == with_child(
            tree::entry_models(old(entries)@),
            name@,
            object_model(object),
        ),
{
    let ghost before = tree::entry_models(entries@);
    let entry = TreeEntry { name: Some(name.to_owned()), object };
    let ghost em = tree::entry_model(entry);
    proof {
        lemma_object_model(entry);
    }
    match entry_at(entries, name) {
        Some(k) => {
            entries.set(k, entry);
            assert(tree::entry_models(entries@) =~= before.update(k as int, em));
        },
        None => {
            entries.push(entry);
            assert(tree::entry_models(entries@) =~= before.push(em));
        },
    }
}

/// The interaction blob or other object under `nodes/<shard>/<file>`.
pub open spec fn sharded_node(entries: Seq<EntryModel>, shard: Seq<char>, file: Seq<char>) -> Option<
    ObjectModel,
> {
    let files = children(children(entries, "nodes"@), shard);
    match find_entry(files, file, 0) {
        None => None,
        Some(k) => Some(files[k].object),
    }
}

/// The entries with a blob set under `nodes/<shard>/<file>`.
pub open spec fn placed_node(
    entries: Seq<EntryModel>,
    shard: Seq<char>,
    file: Seq<char>,
    blob: BlobModel,
) -> Seq<EntryModel> {
    let shards = children(entries, "nodes"@);
    let files = children(shards, shard);
    with_child(
        entries,
        "nodes"@,
        ObjectModel::Tree(
            with_child(
                shards,
                shard,
                ObjectModel::Tree(with_child(files, file, ObjectModel::Blob(blob))),
            ),
        ),
    )
}

pub proof fn lemma_tree_model(sub: Vec<TreeEntry>)
    ensures
        object_model(TreeObject::Tree(sub)) == ObjectModel::Tree(tree::entry_models(sub@)),
{
    assert(object_model(TreeObject::Tree(sub))->Tree_0 =~= tree::entry_models(sub@));
}

/// Sets a blob under `nodes/<shard>/<file>`.
pub fn place_node(entries: &mut Vec<TreeEntry>, shard: &str, file: &str, blob: NodeBlob)
    ensures
        tree::entry_models(final(entries)@) == placed_node(
            tree::entry_models(old(entries)@),
            shard@,
            file@,
            blob@,
        ),
{
    let mut shards = take_children(entries, "nodes");
    let mut files = take_children(&mut shards, shard);
    set_child(&mut files, file, TreeObject::Blob(blob));
    proof {
        lemma_tree_model(files);
    }
    set_child(&mut shards, shard, TreeObject::Tree(files));
    proof {
        lemma_tree_model(shards);
    }
    set_child(entries, "nodes", TreeObject::Tree(shards));
}

/// The object under `nodes/<shard>/<file>`.
pub fn node_at<'a>(entries: &'a Vec<TreeEntry>, shard: &str, file: &str) -> (r: Option<
    &'a TreeObject,
>)
    ensures
        match r {
            Some(o) => sharded_node(tree::entry_models(entries@), shard@, file@) == Some(
                object_model(*o),
            ),
            None => sharded_node(tree::entry_models(entries@), shard@, file@) is None,
        },
{
    let ghost none = Seq::<EntryModel>::empty();
    assert(find_entry(none, shard@, 0) is None);
    assert(find_entry(none, file@, 0) is None);
    match subtree_of(entries, "nodes") {
        None => None,
        Some(shards) => match subtree_of(shards, shard) {
            None => None,
            Some(files) => match entry_at(files, file) {
                None => None,
                Some(k) => {
                    let e = &files[k];
                    proof {
                        assert(tree::entry_models(files@)[k as int] == tree::entry_model(*e));
                        lemma_object_model(*e);
                    }
                    Some(&e.object)
                },
            },
        },
    }
}

/// The object under a name of the root.
pub open spec fn root_object(entries: Seq<EntryModel>, name: Seq<char>) -> Option<ObjectModel> {
    match find_entry(entries, name, 0) {
        None => None,
        Some(k) => Some(entries[k].object),
    }
}

/// The object under a name of the root.
pub fn root_at<'a>(entries: &'a Vec<TreeEntry>, name: &str) -> (r: Option<&'a TreeObject>)
    ensures
        match r {
            Some(o) => root_object(tree::entry_models(entries@), name@) == Some(object_model(*o)),
            None => root_object(tree::entry_models(entries@), name@) is None,
        },
{
    match entry_at(entries, name) {
        None => None,
        Some(k) => {
            let e = &entries[k];
            proof {
                assert(tree::entry_models(entries@)[k as int] == tree::entry_model(*e));
                lemma_object_model(*e);
            }
            Some(&e.object)
        },
    }
}

/// Setting an object under a name: it is found there, and other names keep
/// what they had.
pub proof fn lemma_with_child(
    entries: Seq<EntryModel>,
    name: Seq<char>,
    object: ObjectModel,
    other: Seq<char>,
)
    ensures
        root_object(with_child(entries, name, object), name) == Some(object),
        other != name ==> root_object(with_child(entries, name, object), other) == root_object(
            entries,
            other,
        ),
{
    let after = with_child(entries, name, object);
    lemma_find_entry(entries, name, 0);
    lemma_find_entry(after, name, 0);
    match find_entry(entries, name, 0) {
        Some(k) => {
            assert forall|i: int| 0 <= i < k implies (#[trigger] after[i]).name != Some(name) by {
                assert(after[i] == entries[i]);
            }
            lemma_found_entry(after, name, 0, k);
        },
        None => {
            let k = entries.len() as int;
            assert forall|i: int| 0 <= i < k implies (#[trigger] after[i]).name != Some(name) by {
                assert(after[i] == entries[i]);
            }
            lemma_found_entry(after, name, 0, k);
        },
    }
    if other != name {
        lemma_find_entry(entries, other, 0);
        lemma_find_entry(after, other, 0);
        match find_entry(entries, other, 0) {
            Some(j) => {
                assert(after[j] == entries[j]);
                assert forall|i: int| 0 <= i < j implies (#[trigger] after[i]).name != Some(
                    other,
                ) by {
                    assert(entries[i].name != Some(other));
                }
                lemma_found_entry(after, other, 0, j);
            },
            None => {
                if find_entry(after, other, 0) is Some {
                    let j = find_entry(after, other, 0)->0;
                    if j < entries.len() {
                        assert(entries[j].name != Some(other));
                    }
                }
            },
        }
    }
}

/// Placing a node leaves every other node where it was.
pub proof fn lemma_placed_node(
    entries: Seq<EntryModel>,
    shard: Seq<char>,
    file: Seq<char>,
    blob: BlobModel,
    shard2: Seq<char>,
    file2: Seq<char>,
)
    requires
        file != file2,
        file2 != "nodes"@,
    ensures
        sharded_node(placed_node(entries, shard, file, blob), shard, file) == Some(
            ObjectModel::Blob(blob),
        ),
        root_object(placed_node(entries, shard, file, blob), file2) == root_object(entries, file2),
        sharded_node(placed_node(entries, shard, file, blob), shard2, file2) == sharded_node(
            entries,
            shard2,
            file2,
        ),
{
    let shards = children(entries, "nodes"@);
    let files = children(shards, shard);
    let files1 = with_child(files, file, ObjectModel::Blob(blob));
    let shards1 = with_child(shards, shard, ObjectModel::Tree(files1));
    lemma_with_child(files, file, ObjectModel::Blob(blob), file2);
    lemma_with_child(shards, shard, ObjectModel::Tree(files1), shard2);
    lemma_with_child(entries, "nodes"@, ObjectModel::Tree(shards1), file2);
    assert(children(placed_node(entries, shard, file, blob), "nodes"@) == shards1);
    assert(children(shards1, shard) == files1);
    assert(root_object(files1, file) == Some(ObjectModel::Blob(blob)));
    if shard2 != shard {
        assert(children(shards1, shard2) == children(shards, shard2));
    }
}

pub proof fn lemma_find_shard<M>(shards: Seq<ShardModel<M>>, name: Seq<char>, k: int)
    requires
        0 <= k <= shards.len(),
    ensures
        match find_shard(shards, name, k) {
            Some(j) => k <= j < shards.len() && shards[j].name == name,
            None => forall|i: int|
                k <= i < shards.len() ==> (#[trigger] shards[i]).name != name,
        },
    decreases shards.len() - k,
{
    if k < shards.len() && shards[k].name != name {
        lemma_find_shard(shards, name, k + 1);
    }
}

pub proof fn lemma_find_leaf<M>(leaves: Seq<LeafModel<M>>, name: Seq<char>, k: int)
    requires
        0 <= k <= leaves.len(),
    ensures
        match find_leaf(leaves, name, k) {
            Some(j) => k <= j < leaves.len() && leaves[j].name == name,
            None => forall|i: int|
                k <= i < leaves.len() ==> (#[trigger] leaves[i]).name != name,
        },
    decreases leaves.len() - k,
{
    if k < leaves.len() && leaves[k].name != name {
        lemma_find_leaf(leaves, name, k + 1);
    }
}

proof fn lemma_same_shards<M>(a: Seq<ShardModel<M>>, b: Seq<ShardModel<M>>, name: Seq<char>, k: int)
    requires
        a.len() <= b.len(),
        0 <= k <= a.len(),
        forall|i: int| 0 <= i < a.len() ==> (#[trigger] a[i]).name == b[i].name,
        find_shard(a, name, k) is Some || a.len() == b.len(),
    ensures
        find_shard(b, name, k) == find_shard(a, name, k),
    decreases a.len() - k,
{
    if k < a.len() {
        assert(a[k].name == b[k].name);
        if a[k].name != name {
            lemma_same_shards(a, b, name, k + 1);
        }
    }
}

proof fn lemma_last_shard<M>(a: Seq<ShardModel<M>>, x: ShardModel<M>, name: Seq<char>, k: int)
    requires
        0 <= k <= a.len(),
        find_shard(a, name, k) is None,
    ensures
        find_shard(a.push(x), name, k) == (if x.name == name {
            Some(a.len() as int)
        } else {
            None
        }),
    decreases a.len() - k,
{
    let b = a.push(x);
    if k < a.len() {
        assert(b[k] == a[k]);
        lemma_last_shard(a, x, name, k + 1);
    } else {
        assert(b[k] == x);
        assert(find_shard(b, name, k + 1) is None);
    }
}

proof fn lemma_last_leaf<M>(a: Seq<LeafModel<M>>, x: LeafModel<M>, name: Seq<char>, k: int)
    requires
        0 <= k <= a.len(),
    ensures
        match find_leaf(a, name, k) {
            Some(j) => find_leaf(a.push(x), name, k) == Some(j),
            None => find_leaf(a.push(x), name, k) == (if x.name == name {
                Some(a.len() as int)
            } else {
                None
            }),
        },
    decreases a.len() - k,
{
    let b = a.push(x);
    if k < a.len() {
        assert(b[k] == a[k]);
        if a[k].name != name {
            lemma_last_leaf(a, x, name, k + 1);
        }
    } else {
        assert(b[k] == x);
        assert(find_leaf(b, name, k + 1) is None);
    }
}

/// Every shard of a namespace is a tree.
pub open spec fn all_trees<M>(ns: Option<NamespaceModel<M>>) -> bool {
    match ns {
        None => true,
        Some(n) => n.kind == EntryKind::Tree && forall|i: int|
            0 <= i < n.shards.len() ==> (#[trigger] n.shards[i]).kind == EntryKind::Tree,
    }
}

/// What is found after an entry was placed: it, and all that was found before.
pub proof fn lemma_placed<M>(
    ns: Option<NamespaceModel<M>>,
    shard: Seq<char>,
    leaf: LeafModel<M>,
    shard2: Seq<char>,
    file2: Seq<char>,
)
    requires
        all_trees(ns),
    ensures
        all_trees(Some(placed(ns, shard, leaf))),
        lookup(Some(placed(ns, shard, leaf)), shard2, file2) is Some <==> (lookup(
            ns,
            shard2,
            file2,
        ) is Some || (shard == shard2 && leaf.name == file2)),
{
    let p = placed(ns, shard, leaf);
    let fresh = ShardModel { name: shard, kind: EntryKind::Tree, leaves: seq![leaf] };
    assert(find_leaf(seq![leaf], file2, 0) == (if leaf.name == file2 {
        Some(0int)
    } else {
        None
    })) by {
        lemma_last_leaf(Seq::empty(), leaf, file2, 0);
        assert(Seq::<LeafModel<M>>::empty().push(leaf) =~= seq![leaf]);
    }
    match ns {
        None => {
            lemma_last_shard(Seq::<ShardModel<M>>::empty(), fresh, shard2, 0);
            assert(Seq::<ShardModel<M>>::empty().push(fresh) =~= p.shards);
        },
        Some(n) => {
            lemma_find_shard(n.shards, shard, 0);
            lemma_find_shard(n.shards, shard2, 0);
            match find_shard(n.shards, shard, 0) {
                None => {
                    if find_shard(n.shards, shard2, 0) is Some {
                        lemma_same_shards(n.shards, p.shards, shard2, 0);
                        let j = find_shard(n.shards, shard2, 0)->0;
                        assert(p.shards[j] == n.shards[j]);
                    } else {
                        lemma_last_shard(n.shards, fresh, shard2, 0);
                    }
                },
                Some(k) => {
                    lemma_same_shards(n.shards, p.shards, shard2, 0);
                    lemma_last_leaf(n.shards[k].leaves, leaf, file2, 0);
                    if shard2 != shard && find_shard(n.shards, shard2, 0) is Some {
                        let j = find_shard(n.shards, shard2, 0)->0;
                        assert(p.shards[j] == n.shards[j]);
                    }
                },
            }
        },
    }
}

/// An entry that was missing is found once it is placed, and what was found
/// before is found as it was.
pub proof fn lemma_placed_found<M>(
    ns: Option<NamespaceModel<M>>,
    shard: Seq<char>,
    leaf: LeafModel<M>,
    shard2: Seq<char>,
    file2: Seq<char>,
)
    ensures
        lookup(ns, shard, leaf.name) is None ==> lookup(
            Some(placed(ns, shard, leaf)),
            shard,
            leaf.name,
        ) == Some(leaf),
        lookup(ns, shard2, file2) is Some ==> lookup(Some(placed(ns, shard, leaf)), shard2, file2)
            == lookup(ns, shard2, file2),
{
    let p = placed(ns, shard, leaf);
    let fresh = ShardModel { name: shard, kind: EntryKind::Tree, leaves: seq![leaf] };
    lemma_last_leaf(Seq::empty(), leaf, leaf.name, 0);
    assert(Seq::<LeafModel<M>>::empty().push(leaf) =~= seq![leaf]);
    lemma_last_shard(Seq::<ShardModel<M>>::empty(), fresh, shard, 0);
    assert(Seq::<ShardModel<M>>::empty().push(fresh) =~= seq![fresh]);
    if ns is Some && (ns->0).kind == EntryKind::Tree {
        let n = ns->0;
        lemma_find_shard(n.shards, shard, 0);
        lemma_find_shard(n.shards, shard2, 0);
        match find_shard(n.shards, shard, 0) {
            None => {
                lemma_last_shard(n.shards, fresh, shard, 0);
                if find_shard(n.shards, shard2, 0) is Some {
                    lemma_same_shards(n.shards, p.shards, shard2, 0);
                    let j = find_shard(n.shards, shard2, 0)->0;
                    assert(p.shards[j] == n.shards[j]);
                }
            },
            Some(k) => {
                lemma_same_shards(n.shards, p.shards, shard, 0);
                lemma_same_shards(n.shards, p.shards, shard2, 0);
                lemma_last_leaf(n.shards[k].leaves, leaf, leaf.name, 0);
                lemma_last_leaf(n.shards[k].leaves, leaf, file2, 0);
                lemma_find_leaf(n.shards[k].leaves, file2, 0);
                if find_shard(n.shards, shard2, 0) is Some {
                    let j = find_shard(n.shards, shard2, 0)->0;
                    if j != k {
                        assert(p.shards[j] == n.shards[j]);
                    }
                }
            },
        }
    }
}

} // verus!
