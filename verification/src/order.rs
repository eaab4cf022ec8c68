//! The byte order of texts, and lists kept in that order without repetition.

use crate::text::text_equal;
use vstd::prelude::*;
use vstd::string::*;
use vstd::utf8::*;

verus! {

/// `a` comes strictly before `b` in the lexicographic order of bytes.
pub open spec fn bytes_lt(a: Seq<u8>, b: Seq<u8>) -> bool
    decreases a.len(),
{
    if b.len() == 0 {
        false
    } else if a.len() == 0 {
        true
    } else if a[0] != b[0] {
        a[0] < b[0]
    } else {
        bytes_lt(a.drop_first(), b.drop_first())
    }
}

/// The order of texts: that of their UTF-8 bytes.
pub open spec fn text_lt(a: Seq<char>, b: Seq<char>) -> bool {
    bytes_lt(encode_utf8(a), encode_utf8(b))
}

pub proof fn lemma_bytes_lt_irreflexive(a: Seq<u8>)
    ensures
        !bytes_lt(a, a),
    decreases a.len(),
{
    if a.len() > 0 {
        lemma_bytes_lt_irreflexive(a.drop_first());
    }
}

pub proof fn lemma_bytes_lt_transitive(a: Seq<u8>, b: Seq<u8>, c: Seq<u8>)
    requires
        bytes_lt(a, b),
        bytes_lt(b, c),
    ensures
        bytes_lt(a, c),
    decreases a.len(),
{
    if a.len() > 0 && a[0] == b[0] && b[0] == c[0] {
        lemma_bytes_lt_transitive(a.drop_first(), b.drop_first(), c.drop_first());
    }
}

pub proof fn lemma_bytes_lt_total(a: Seq<u8>, b: Seq<u8>)
    ensures
        a == b || bytes_lt(a, b) || bytes_lt(b, a),
    decreases a.len(),
{
    if a.len() > 0 && b.len() > 0 && a[0] == b[0] {
        lemma_bytes_lt_total(a.drop_first(), b.drop_first());
        if a.drop_first() == b.drop_first() {
            assert(a =~= seq![a[0]] + a.drop_first());
            assert(b =~= seq![b[0]] + b.drop_first());
        }
    } else if a.len() == 0 && b.len() == 0 {
        assert(a =~= b);
    }
}

/// The order of texts is a strict total order.
pub proof fn lemma_text_order(a: Seq<char>, b: Seq<char>)
    ensures
        !text_lt(a, a),
        a == b || text_lt(a, b) || text_lt(b, a),
        text_lt(a, b) ==> !text_lt(b, a) && a != b,
{
    broadcast use encode_utf8_decode_utf8;

    lemma_bytes_lt_irreflexive(encode_utf8(a));
    lemma_bytes_lt_irreflexive(encode_utf8(b));
    lemma_bytes_lt_total(encode_utf8(a), encode_utf8(b));
    if encode_utf8(a) == encode_utf8(b) {
        assert(decode_utf8(encode_utf8(a)) == decode_utf8(encode_utf8(b)));
    }
    if text_lt(a, b) && text_lt(b, a) {
        lemma_bytes_lt_transitive(encode_utf8(a), encode_utf8(b), encode_utf8(a));
    }
}

pub proof fn lemma_text_lt_transitive(a: Seq<char>, b: Seq<char>, c: Seq<char>)
    requires
        text_lt(a, b),
        text_lt(b, c),
    ensures
        text_lt(a, c),
{
    lemma_bytes_lt_transitive(encode_utf8(a), encode_utf8(b), encode_utf8(c));
}

/// Whether `a` comes strictly before `b` in byte order.
pub fn bytes_less(a: &[u8], b: &[u8]) -> (r: bool)
    ensures
        r == bytes_lt(a@, b@),
{
    let mut i: usize = 0;
    proof {
        assert(a@.skip(0) =~= a@);
        assert(b@.skip(0) =~= b@);
    }
    loop
        invariant
            i <= a.len(),
            i <= b.len(),
            bytes_lt(a@, b@) == bytes_lt(a@.skip(i as int), b@.skip(i as int)),
        decreases a.len() - i,
    {
        if i == b.len() {
            return false;
        }
        if i == a.len() {
            return true;
        }
        if a[i] != b[i] {
            return a[i] < b[i];
        }
        proof {
            assert(a@.skip(i as int).drop_first() =~= a@.skip(i + 1));
            assert(b@.skip(i as int).drop_first() =~= b@.skip(i + 1));
        }
        i += 1;
    }
}

/// Whether text `a` comes strictly before text `b`.
pub fn text_less(a: &str, b: &str) -> (r: bool)
    ensures
        r == text_lt(a@, b@),
{
    bytes_less(a.as_bytes(), b.as_bytes())
}

/// Every element comes strictly before the ones behind it.
pub open spec fn strictly_sorted(s: Seq<Seq<char>>) -> bool {
    forall|i: int, j: int| 0 <= i < j < s.len() ==> text_lt(#[trigger] s[i], #[trigger] s[j])
}

/// `x` put into the ascending list `s`, unless `s` holds it.
pub open spec fn sorted_insert(s: Seq<Seq<char>>, x: Seq<char>) -> Seq<Seq<char>>
    decreases s.len(),
{
    if s.len() == 0 {
        seq![x]
    } else if s.last() == x {
        s
    } else if text_lt(s.last(), x) {
        s.push(x)
    } else {
        sorted_insert(s.drop_last(), x).push(s.last())
    }
}

/// The elements of `s` in ascending order, each once.
pub open spec fn sorted_set(s: Seq<Seq<char>>) -> Seq<Seq<char>>
    decreases s.len(),
{
    if s.len() == 0 {
        Seq::empty()
    } else {
        sorted_insert(sorted_set(s.drop_last()), s.last())
    }
}

pub proof fn lemma_sorted_insert(s: Seq<Seq<char>>, x: Seq<char>)
    requires
        strictly_sorted(s),
    ensures
        strictly_sorted(sorted_insert(s, x)),
        forall|y: Seq<char>| #[trigger]
            sorted_insert(s, x).contains(y) <==> (s.contains(y) || y == x),
    decreases s.len(),
{
    let r = sorted_insert(s, x);
    if s.len() == 0 {
        assert(r[0] == x);
        assert forall|y: Seq<char>| #[trigger] r.contains(y) <==> (s.contains(y) || y == x) by {
            if y == x {
                assert(r[0] == y);
            }
        }
    } else if s.last() == x {
    } else if text_lt(s.last(), x) {
        assert(r.last() == x);
        assert forall|i: int, j: int| 0 <= i < j < r.len() implies text_lt(
            #[trigger] r[i],
            #[trigger] r[j],
        ) by {
            if j == s.len() && i < s.len() - 1 {
                assert(text_lt(s[i], s[s.len() - 1]));
                lemma_text_lt_transitive(s[i], s.last(), x);
            }
        }
        assert forall|y: Seq<char>| #[trigger] r.contains(y) <==> (s.contains(y) || y == x) by {
            if s.contains(y) {
                let k = s.index_of(y);
                assert(r[k] == y);
            }
            if y == x {
                assert(r[s.len() as int] == y);
            }
            if r.contains(y) {
                let k = choose|k: int| 0 <= k < r.len() && r[k] == y;
                if k < s.len() {
                    assert(s[k] == y);
                }
            }
        }
    } else {
        let p = s.drop_last();
        let q = sorted_insert(p, x);
        lemma_sorted_insert(p, x);
        lemma_text_order(s.last(), x);
        assert forall|i: int, j: int| 0 <= i < j < r.len() implies text_lt(
            #[trigger] r[i],
            #[trigger] r[j],
        ) by {
            if j == q.len() {
                assert(q.contains(q[i]));
                assert(p.contains(q[i]) || q[i] == x);
                if p.contains(q[i]) {
                    let k = choose|k: int| 0 <= k < p.len() && p[k] == q[i];
                    assert(text_lt(s[k], s[s.len() - 1]));
                }
            } else {
                assert(text_lt(q[i], q[j]));
            }
        }
        assert forall|y: Seq<char>| #[trigger] r.contains(y) <==> (s.contains(y) || y == x) by {
            if s.contains(y) {
                let k = choose|k: int| 0 <= k < s.len() && s[k] == y;
                if k < p.len() {
                    assert(p[k] == y);
                    assert(q.contains(y));
                    let m = choose|m: int| 0 <= m < q.len() && q[m] == y;
                    assert(r[m] == y);
                } else {
                    assert(r[q.len() as int] == y);
                }
            }
            if y == x {
                assert(q.contains(y));
                let m = choose|m: int| 0 <= m < q.len() && q[m] == y;
                assert(r[m] == y);
            }
            if r.contains(y) {
                let k = choose|k: int| 0 <= k < r.len() && r[k] == y;
                if k < q.len() {
                    assert(q[k] == y);
                    assert(q.contains(y));
                    if p.contains(y) {
                        let m = choose|m: int| 0 <= m < p.len() && p[m] == y;
                        assert(s[m] == y);
                    }
                } else {
                    assert(s[s.len() - 1] == y);
                }
            }
        }
    }
}

/// `sorted_set` sorts and keeps exactly the elements.
pub proof fn lemma_sorted_set(s: Seq<Seq<char>>)
    ensures
        strictly_sorted(sorted_set(s)),
        forall|y: Seq<char>| #[trigger] sorted_set(s).contains(y) <==> s.contains(y),
    decreases s.len(),
{
    if s.len() > 0 {
        let p = s.drop_last();
        lemma_sorted_set(p);
        lemma_sorted_insert(sorted_set(p), s.last());
        assert forall|y: Seq<char>| #[trigger] sorted_set(s).contains(y) <==> s.contains(y) by {
            if s.contains(y) {
                let k = choose|k: int| 0 <= k < s.len() && s[k] == y;
                if k < p.len() {
                    assert(p[k] == y);
                }
            }
            if p.contains(y) {
                let k = choose|k: int| 0 <= k < p.len() && p[k] == y;
                assert(s[k] == y);
            }
        }
    }
}

/// A strictly ascending list is determined by its elements.
pub proof fn lemma_strictly_sorted_unique(a: Seq<Seq<char>>, b: Seq<Seq<char>>)
    requires
        strictly_sorted(a),
        strictly_sorted(b),
        forall|y: Seq<char>| #[trigger] a.contains(y) <==> b.contains(y),
    ensures
        a == b,
    decreases a.len(),
{
    if a.len() == 0 {
        if b.len() > 0 {
            assert(b.contains(b[0]));
            assert(a.contains(b[0]));
        }
        assert(a =~= b);
    } else {
        assert(a.contains(a[a.len() - 1]));
        let x = a.last();
        let kb = choose|k: int| 0 <= k < b.len() && b[k] == x;
        assert(b.len() > 0);
        let z = b.last();
        assert(b.contains(b[b.len() - 1]));
        assert(a.contains(z));
        let ka = choose|k: int| 0 <= k < a.len() && a[k] == z;
        lemma_text_order(x, z);
        if x != z {
            assert(kb < b.len() - 1);
            assert(text_lt(b[kb], b[b.len() - 1]));
            assert(ka < a.len() - 1);
            assert(text_lt(a[ka], a[a.len() - 1]));
        }
        let p = a.drop_last();
        let q = b.drop_last();
        assert forall|y: Seq<char>| #[trigger] p.contains(y) <==> q.contains(y) by {
            lemma_text_order(y, x);
            if p.contains(y) {
                let k = choose|k: int| 0 <= k < p.len() && p[k] == y;
                assert(text_lt(a[k], a[a.len() - 1]));
                assert(a.contains(y));
                let m = choose|m: int| 0 <= m < b.len() && b[m] == y;
                assert(q[m] == y);
            }
            if q.contains(y) {
                let k = choose|k: int| 0 <= k < q.len() && q[k] == y;
                assert(text_lt(b[k], b[b.len() - 1]));
                assert(b.contains(y));
                assert(a.contains(y));
                let m = choose|m: int| 0 <= m < a.len() && a[m] == y;
                assert(p[m] == y);
            }
        }
        lemma_strictly_sorted_unique(p, q);
        assert(a =~= p.push(x));
        assert(b =~= q.push(z));
    }
}

/// Puts `x` into an ascending list, unless the list holds it.
pub fn insert_sorted(list: &mut Vec<String>, x: String)
    requires
        strictly_sorted(old(list).deep_view()),
    ensures
        final(list).deep_view() == sorted_insert(old(list).deep_view(), x@),
        strictly_sorted(final(list).deep_view()),
{
    let ghost s = list.deep_view();
    let n: usize = list.len();
    let mut k: usize = n;
    proof {
        lemma_sorted_insert(s, x@);
        assert(s.take(n as int) =~= s);
        assert(s.skip(n as int) =~= Seq::empty());
        assert(sorted_insert(s, x@) =~= sorted_insert(s.take(n as int), x@) + s.skip(n as int));
    }
    while k > 0
        invariant
            k <= n,
            n == list.len(),
            s == list.deep_view(),
            s.len() == n,
            strictly_sorted(s),
            sorted_insert(s, x@) == sorted_insert(s.take(k as int), x@) + s.skip(k as int),
        ensures
            k == 0 || text_lt(s[k - 1], x@),
            k <= n,
        decreases k,
    {
        let ghost t = s.take(k as int);
        assert(t.last() == s[k - 1]);
        assert(s[k - 1] == list@[k - 1]@);
        if list[k - 1] == x {
            proof {
                assert(sorted_insert(s, x@) =~= s);
            }
            return ;
        }
        if text_less(list[k - 1].as_str(), x.as_str()) {
            break;
        }
        proof {
            assert(t.drop_last() =~= s.take(k - 1));
            assert(sorted_insert(t, x@) + s.skip(k as int) =~= sorted_insert(s.take(k - 1), x@)
                + s.skip(k - 1));
        }
        k -= 1;
    }
    proof {
        let t = s.take(k as int);
        if k > 0 {
            assert(t.last() == s[k - 1]);
            lemma_text_order(t.last(), x@);
        }
        assert(sorted_insert(t, x@) =~= t.push(x@));
    }
    list.insert(k, x);
    proof {
        assert(list.deep_view() =~= s.take(k as int).push(x@) + s.skip(k as int));
    }
}

/// The texts in ascending order, each once.
pub fn sort_texts(list: &Vec<String>) -> (r: Vec<String>)
    ensures
        r.deep_view() == sorted_set(list.deep_view()),
{
    let mut out: Vec<String> = Vec::new();
    let ghost s = list.deep_view();
    let mut i: usize = 0;
    assert(out.deep_view() =~= sorted_set(s.take(0)));
    while i < list.len()
        invariant
            i <= list.len(),
            s == list.deep_view(),
            out.deep_view() == sorted_set(s.take(i as int)),
        decreases list.len() - i,
    {
        proof {
            lemma_sorted_set(s.take(i as int));
            assert(s.take(i + 1).drop_last() =~= s.take(i as int));
            assert(s.take(i + 1).last() == list@[i as int]@);
        }
        insert_sorted(&mut out, list[i].clone());
        i += 1;
    }
    assert(s.take(s.len() as int) =~= s);
    out
}

/// The list is sorted as texts, without repetition.
pub fn is_sorted(list: &Vec<String>) -> (r: bool)
    ensures
        r == strictly_sorted(list.deep_view()),
{
    let ghost s = list.deep_view();
    if list.len() == 0 {
        return true;
    }
    let mut i: usize = 1;
    while i < list.len()
        invariant
            1 <= i,
            i <= list.len(),
            s == list.deep_view(),
            strictly_sorted(s.take(i as int)),
        decreases list.len() - i,
    {
        assert(s[i - 1] == list@[i - 1]@);
        assert(s[i as int] == list@[i as int]@);
        if !text_less(list[i - 1].as_str(), list[i].as_str()) {
            return false;
        }
        proof {
            let t = s.take(i + 1);
            assert forall|a: int, b: int| 0 <= a < b < t.len() implies text_lt(
                #[trigger] t[a],
                #[trigger] t[b],
            ) by {
                if b < i {
                    assert(text_lt(s.take(i as int)[a], s.take(i as int)[b]));
                } else if a < i - 1 {
                    assert(text_lt(s.take(i as int)[a], s.take(i as int)[i - 1]));
                    lemma_text_lt_transitive(s[a], s[i - 1], s[i as int]);
                }
            }
        }
        i += 1;
    }
    assert(s.take(i as int) =~= s);
    true
}

/// Whether the list holds the text.
pub fn holds(list: &Vec<String>, x: &str) -> (r: bool)
    ensures
        r == list.deep_view().contains(x@),
{
    let ghost s = list.deep_view();
    let mut i: usize = 0;
    while i < list.len()
        invariant
            i <= list.len(),
            s == list.deep_view(),
            forall|k: int| 0 <= k < i ==> s[k] != x@,
        decreases list.len() - i,
    {
        assert(s[i as int] == list@[i as int]@);
        if text_equal(list[i].as_str(), x) {
            return true;
        }
        i += 1;
    }
    false
}

} // verus!
