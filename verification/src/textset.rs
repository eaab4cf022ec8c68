//! Sets of texts that remember the order of insertion.

use vstd::hash_map::StringHashMap;
use vstd::hash_set::StringHashSet;
use vstd::prelude::*;
use vstd::string::*;

verus! {

/// A set of texts; `list` holds its elements, each once, in the order of insertion.
pub struct TextSet {
    pub list: Vec<String>,
    pub index: StringHashSet,
}

impl View for TextSet {
    type V = Set<Seq<char>>;

    open spec fn view(&self) -> Set<Seq<char>> {
        self.list.deep_view().to_set()
    }
}

impl TextSet {
    /// The list and the index hold the same texts, and the list each once.
    pub open spec fn wf(self) -> bool {
        &&& self.index@ == self@
        &&& self.list.deep_view().no_duplicates()
    }

    pub fn new() -> (r: Self)
        ensures
            r.wf(),
            r@ == Set::<Seq<char>>::empty(),
            r.list@.len() == 0,
    {
        let r = TextSet { list: Vec::new(), index: StringHashSet::new() };
        assert(r.list.deep_view() =~= Seq::<Seq<char>>::empty());
        assert(r@ =~= Set::<Seq<char>>::empty());
        r
    }

    /// Adds a text; whether it was new.
    pub fn insert(&mut self, x: String) -> (r: bool)
        requires
            old(self).wf(),
        ensures
            final(self).wf(),
            final(self)@ == old(self)@.insert(x@),
            r == !old(self)@.contains(x@),
            final(self).list.deep_view() == (if old(self)@.contains(x@) {
                old(self).list.deep_view()
            } else {
                old(self).list.deep_view().push(x@)
            }),
    {
        let ghost before = self.list.deep_view();
        let ghost held = self@;
        if self.index.contains(x.as_str()) {
            assert(held.insert(x@) =~= held);
            return false;
        }
        self.index.insert(x.clone());
        self.list.push(x);
        proof {
            let after = self.list.deep_view();
            assert(after =~= before.push(x@));
            assert(after.to_set() =~= before.to_set().insert(x@)) by {
                assert forall|y: Seq<char>| #[trigger]
                    after.to_set().contains(y) <==> before.to_set().insert(x@).contains(y) by {
                    if before.contains(y) {
                        let k = before.index_of(y);
                        assert(after[k] == y);
                    }
                    if y == x@ {
                        assert(after[before.len() as int] == y);
                    }
                    if after.contains(y) {
                        let k = after.index_of(y);
                        if k < before.len() {
                            assert(before[k] == y);
                        }
                    }
                }
            }
            assert forall|i: int, j: int|
                0 <= i < after.len() && 0 <= j < after.len() && i != j implies after[i]
                != after[j] by {
                if i == before.len() {
                    assert(before.to_set().contains(before[j]));
                } else if j == before.len() {
                    assert(before.to_set().contains(before[i]));
                }
            }
        }
        true
    }

    pub fn contains(&self, x: &str) -> (r: bool)
        requires
            self.wf(),
        ensures
            r == self@.contains(x@),
    {
        self.index.contains(x)
    }

    pub fn len(&self) -> (r: usize)
        requires
            self.wf(),
        ensures
            r == self@.len(),
            r == self.list@.len(),
    {
        proof {
            self.list.deep_view().unique_seq_to_set();
        }
        self.list.len()
    }

    /// Whether two sets hold the same texts.
    pub fn same(&self, other: &Self) -> (r: bool)
        requires
            self.wf(),
            other.wf(),
        ensures
            r == (self@ == other@),
    {
        if self.len() != other.len() {
            return false;
        }
        let ghost s = self.list.deep_view();
        let mut i: usize = 0;
        while i < self.list.len()
            invariant
                i <= self.list.len(),
                s == self.list.deep_view(),
                other.wf(),
                forall|k: int| 0 <= k < i ==> other@.contains(#[trigger] s[k]),
            decreases self.list.len() - i,
        {
            assert(s[i as int] == self.list@[i as int]@);
            if !other.contains(self.list[i].as_str()) {
                assert(self@.contains(s[i as int]));
                return false;
            }
            i += 1;
        }
        proof {
            assert(self@.subset_of(other@)) by {
                assert forall|y: Seq<char>| self@.contains(y) implies other@.contains(y) by {
                    let k = s.index_of(y);
                    assert(s[k] == y);
                }
            }
            vstd::seq_lib::seq_to_set_is_finite(s);
            vstd::seq_lib::seq_to_set_is_finite(other.list.deep_view());
            vstd::set_lib::lemma_subset_equality(self@, other@);
        }
        true
    }
}

/// The first position of a text in a list, at or behind `k`.
pub open spec fn position_of(list: Seq<Seq<char>>, x: Seq<char>, k: int) -> Option<int>
    decreases list.len() - k,
{
    if k < 0 || k >= list.len() {
        None
    } else if list[k] == x {
        Some(k)
    } else {
        position_of(list, x, k + 1)
    }
}

pub proof fn lemma_position_of(list: Seq<Seq<char>>, x: Seq<char>, k: int)
    requires
        0 <= k <= list.len(),
    ensures
        match position_of(list, x, k) {
            Some(i) => k <= i < list.len() && list[i] == x,
            None => forall|i: int| k <= i < list.len() ==> #[trigger] list[i] != x,
        },
    decreases list.len() - k,
{
    if k < list.len() && list[k] != x {
        lemma_position_of(list, x, k + 1);
    }
}

pub proof fn lemma_position_pushed(list: Seq<Seq<char>>, y: Seq<char>, x: Seq<char>, k: int)
    requires
        0 <= k <= list.len(),
    ensures
        position_of(list.push(y), x, k) == (match position_of(list, x, k) {
            Some(i) => Some(i),
            None => if y == x {
                Some(list.len() as int)
            } else {
                None
            },
        }),
    decreases list.len() - k,
{
    let longer = list.push(y);
    if k < list.len() {
        assert(longer[k] == list[k]);
        if list[k] != x {
            lemma_position_pushed(list, y, x, k + 1);
        }
    } else {
        assert(longer[k] == y);
        assert(position_of(longer, x, k + 1) is None);
    }
}

/// The map sends each text of the list to its first position.
pub open spec fn is_first_index(map: Map<Seq<char>, usize>, list: Seq<Seq<char>>) -> bool {
    forall|x: Seq<char>|
        match position_of(list, x, 0) {
            Some(i) => #[trigger] map.contains_key(x) && map[x] == i,
            None => !map.contains_key(x),
        }
}

/// Notes that the text stands at this position behind all others.
pub fn note_first(map: &mut StringHashMap<usize>, x: &str, at: usize)
    ensures
        forall|list: Seq<Seq<char>>| #[trigger]
            is_first_index(old(map)@, list) && list.len() == at ==> is_first_index(
                final(map)@,
                list.push(x@),
            ),
{
    let ghost before = map@;
    if !map.contains_key(x) {
        map.insert(x.to_owned(), at);
    }
    proof {
        assert forall|list: Seq<Seq<char>>| #[trigger]
            is_first_index(before, list) && list.len() == at implies is_first_index(
            map@,
            list.push(x@),
        ) by {
            assert forall|y: Seq<char>|
                match position_of(list.push(x@), y, 0) {
                    Some(i) => #[trigger] map@.contains_key(y) && map@[y] == i,
                    None => !map@.contains_key(y),
                } by {
                lemma_position_pushed(list, x@, y, 0);
                assert(match position_of(list, y, 0) {
                    Some(i) => before.contains_key(y) && before[y] == i,
                    None => !before.contains_key(y),
                }) by {
                    let _ = before.contains_key(y);
                }
                assert(match position_of(list, x@, 0) {
                    Some(i) => before.contains_key(x@) && before[x@] == i,
                    None => !before.contains_key(x@),
                }) by {
                    let _ = before.contains_key(x@);
                }
            }
        }
    }
}

} // verus!
