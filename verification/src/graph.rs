//! Dependency graphs over list positions: ordering and cycle detection.

use vstd::prelude::*;

verus! {

/// Every dependency is a position of the list.
pub open spec fn in_range(parents: Seq<Vec<usize>>) -> bool {
    forall|i: int, j: int|
        0 <= i < parents.len() && 0 <= j < parents[i]@.len() ==> (#[trigger] parents[i]@[j])
            < parents.len()
}

/// `rank` decreases along every dependency.
pub open spec fn ranked(parents: Seq<Vec<usize>>, rank: Seq<nat>) -> bool {
    &&& rank.len() == parents.len()
    &&& forall|i: int, j: int|
        0 <= i < parents.len() && 0 <= j < parents[i]@.len() ==> rank[(
        #[trigger] parents[i]@[j]) as int] < rank[i]
}

/// No position depends on itself, directly or through others.
pub open spec fn acyclic(parents: Seq<Vec<usize>>) -> bool {
    exists|rank: Seq<nat>| ranked(parents, rank)
}

/// All dependencies of `i` stand among the first `k` positions of `order`.
pub open spec fn ready(parents: Seq<Vec<usize>>, order: Seq<usize>, k: int, i: int) -> bool {
    forall|j: int| 0 <= j < parents[i]@.len() ==> before(order, k, #[trigger] parents[i]@[j])
}

/// `v` stands among the first `k` elements of `order`.
pub open spec fn before(order: Seq<usize>, k: int, v: usize) -> bool {
    exists|p: int| 0 <= p < k && #[trigger] order[p] == v
}

/// `order` lists every position below `n` once.
pub open spec fn is_arrangement(order: Seq<usize>, n: nat) -> bool {
    &&& order.len() == n
    &&& forall|k: int| 0 <= k < order.len() ==> #[trigger] order[k] < n
    &&& forall|a: int, b: int|
        0 <= a < b < order.len() ==> #[trigger] order[a] != #[trigger] order[b]
}

/// Every position stands behind the ones it depends on.
pub open spec fn dependencies_first(parents: Seq<Vec<usize>>, order: Seq<usize>) -> bool {
    forall|k: int| 0 <= k < order.len() ==> #[trigger] ready(parents, order, k, order[k] as int)
}

/// Where every unmarked position waits for an unmarked one, a ranking leaves no
/// position unmarked.
proof fn lemma_stuck(parents: Seq<Vec<usize>>, done: Seq<bool>, rank: Seq<nat>, i: int)
    requires
        in_range(parents),
        ranked(parents, rank),
        done.len() == parents.len(),
        forall|k: int| 0 <= k < done.len() && !done[k] ==> !#[trigger] all_done(parents, done, k),
        0 <= i < done.len(),
    ensures
        done[i],
    decreases rank[i],
{
    if !done[i] {
        assert(!all_done(parents, done, i));
        let j = choose|j: int|
            0 <= j < parents[i]@.len() && !done[(#[trigger] parents[i]@[j]) as int];
        let p = parents[i]@[j] as int;
        assert(rank[p] < rank[i]);
        lemma_stuck(parents, done, rank, p);
    }
}

/// All dependencies of `i` are marked.
pub open spec fn all_done(parents: Seq<Vec<usize>>, done: Seq<bool>, i: int) -> bool {
    forall|j: int| 0 <= j < parents[i]@.len() ==> done[(#[trigger] parents[i]@[j]) as int]
}

/// A list of distinct positions below `n` has at most `n` elements.
proof fn lemma_distinct_bound(order: Seq<usize>, n: nat)
    requires
        forall|k: int| 0 <= k < order.len() ==> #[trigger] order[k] < n,
        forall|a: int, b: int|
            0 <= a < b < order.len() ==> #[trigger] order[a] != #[trigger] order[b],
    ensures
        order.len() <= n,
        order.len() == n ==> forall|v: usize| v < n ==> #[trigger] order.contains(v),
    decreases n,
{
    if n == 0 {
        if order.len() > 0 {
            assert(order[0] < 0);
        }
    } else {
        let last = (n - 1) as usize;
        if order.contains(last) {
            let k = order.index_of(last);
            let rest = order.remove(k);
            assert forall|a: int| 0 <= a < rest.len() implies #[trigger] rest[a] < n - 1 by {
                if a < k {
                    assert(rest[a] == order[a]);
                } else {
                    assert(rest[a] == order[a + 1]);
                }
            }
            assert forall|a: int, b: int| 0 <= a < b < rest.len() implies #[trigger] rest[a]
                != #[trigger] rest[b] by {
                let x = if a < k {
                    a
                } else {
                    a + 1
                };
                let y = if b < k {
                    b
                } else {
                    b + 1
                };
                assert(rest[a] == order[x] && rest[b] == order[y]);
            }
            lemma_distinct_bound(rest, (n - 1) as nat);
            if order.len() == n {
                assert forall|v: usize| v < n implies #[trigger] order.contains(v) by {
                    if v != last {
                        assert(rest.contains(v));
                        let a = rest.index_of(v);
                        let x = if a < k {
                            a
                        } else {
                            a + 1
                        };
                        assert(order[x] == v);
                    }
                }
            }
        } else {
            assert forall|a: int| 0 <= a < order.len() implies #[trigger] order[a] < n - 1 by {
                assert(order[a] != last);
            }
            lemma_distinct_bound(order, (n - 1) as nat);
        }
    }
}

/// An order in which dependencies come first shows that there is no cycle.
proof fn lemma_order_is_ranking(parents: Seq<Vec<usize>>, order: Seq<usize>)
    requires
        in_range(parents),
        parents.len() <= usize::MAX,
        is_arrangement(order, parents.len()),
        dependencies_first(parents, order),
    ensures
        acyclic(parents),
{
    lemma_distinct_bound(order, parents.len());
    let rank = Seq::new(parents.len(), |i: int| order.index_of(i as usize) as nat);
    assert forall|i: int, j: int|
        0 <= i < parents.len() && 0 <= j < parents[i]@.len() implies rank[(
    #[trigger] parents[i]@[j]) as int] < rank[i] by {
        assert(order.contains(i as usize));
        let k = order.index_of(i as usize);
        assert(ready(parents, order, k, order[k] as int));
        assert(order[k] == i);
        let q = parents[i]@[j];
        assert(before(order, k, q));
        let p = choose|p: int| 0 <= p < k && #[trigger] order[p] == q;
        assert(order.contains(q));
        let m = order.index_of(q);
        if m != p {
            if m < p {
                assert(order[m] != order[p]);
            } else {
                assert(order[p] != order[m]);
            }
        }
    }
    assert(ranked(parents, rank));
}

/// Arranges the positions so that each stands behind the ones it depends on;
/// `None` exactly when that is impossible.
pub fn arrange(parents: &Vec<Vec<usize>>) -> (r: Option<Vec<usize>>)
    requires
        in_range(parents@),
    ensures
        r is Some <==> acyclic(parents@),
        r matches Some(order) ==> {
            &&& is_arrangement(order@, parents@.len())
            &&& dependencies_first(parents@, order@)
        },
{
    let n: usize = parents.len();
    let mut done: Vec<bool> = Vec::new();
    let mut i: usize = 0;
    while i < n
        invariant
            i <= n,
            done.len() == i,
            forall|k: int| 0 <= k < i ==> !done@[k],
        decreases n - i,
    {
        done.push(false);
        i += 1;
    }
    let mut order: Vec<usize> = Vec::new();
    let mut progressed = true;
    while progressed
        invariant
            n == parents.len(),
            in_range(parents@),
            done.len() == n,
            forall|k: int| 0 <= k < order.len() ==> #[trigger] order@[k] < n,
            forall|a: int, b: int|
                0 <= a < b < order.len() ==> #[trigger] order@[a] != #[trigger] order@[b],
            forall|v: int| 0 <= v < n && #[trigger] done@[v] ==> order@.contains(v as usize),
            forall|k: int| 0 <= k < order.len() ==> done@[(#[trigger] order@[k]) as int],
            dependencies_first(parents@, order@),
            !progressed ==> forall|k: int|
                0 <= k < n && !done@[k] ==> !#[trigger] all_done(parents@, done@, k),
        decreases n - order.len() + (if progressed {
                1int
            } else {
                0int
            }),
    {
        progressed = false;
        let ghost held = order.len();
        let mut i: usize = 0;
        while i < n
            invariant
                i <= n,
                n == parents.len(),
                in_range(parents@),
                done.len() == n,
                forall|k: int| 0 <= k < order.len() ==> #[trigger] order@[k] < n,
                forall|a: int, b: int|
                    0 <= a < b < order.len() ==> #[trigger] order@[a] != #[trigger] order@[b],
                forall|v: int| 0 <= v < n && #[trigger] done@[v] ==> order@.contains(v as usize),
                forall|k: int| 0 <= k < order.len() ==> done@[(#[trigger] order@[k]) as int],
                dependencies_first(parents@, order@),
                order.len() >= held,
                progressed ==> order.len() > held,
                !progressed ==> forall|k: int|
                    0 <= k < i && !done@[k] ==> !#[trigger] all_done(parents@, done@, k),
            decreases n - i,
        {
            if !done[i] {
                let mut all = true;
                let mut j: usize = 0;
                while j < parents[i].len()
                    invariant
                        i < n,
                        n == parents.len(),
                        in_range(parents@),
                        done.len() == n,
                        j <= parents@[i as int]@.len(),
                        all <==> forall|m: int|
                            0 <= m < j ==> done@[(#[trigger] parents@[i as int]@[m]) as int],
                    decreases parents@[i as int]@.len() - j,
                {
                    let p: usize = parents[i][j];
                    assert(p == parents@[i as int]@[j as int]);
                    if !done[p] {
                        all = false;
                    }
                    j += 1;
                }
                if all {
                    let ghost o = order@;
                    let ghost d = done@;
                    assert(ready(parents@, o, o.len() as int, i as int)) by {
                        assert forall|j: int| 0 <= j < parents@[i as int]@.len() implies before(
                            o,
                            o.len() as int,
                            #[trigger] parents@[i as int]@[j],
                        ) by {
                            let q = parents@[i as int]@[j];
                            assert(done@[q as int]);
                            assert(o.contains(q));
                            let p = o.index_of(q);
                            assert(o[p] == q);
                        }
                    }
                    done.set(i, true);
                    order.push(i);
                    progressed = true;
                    proof {
                        let o2 = order@;
                        assert forall|a: int, b: int| 0 <= a < b < o2.len() implies #[trigger] o2[a]
                            != #[trigger] o2[b] by {
                            if b == o.len() {
                                assert(d[o[a] as int]);
                            }
                        }
                        assert forall|v: int| 0 <= v < n && #[trigger] done@[v] implies o2.contains(
                            v as usize,
                        ) by {
                            if v == i {
                                assert(o2[o.len() as int] == v);
                            } else {
                                assert(d[v]);
                                let p = o.index_of(v as usize);
                                assert(o2[p] == v);
                            }
                        }
                        assert forall|k: int| 0 <= k < o2.len() implies #[trigger] ready(
                            parents@,
                            o2,
                            k,
                            o2[k] as int,
                        ) by {
                            let i2 = o2[k] as int;
                            if k < o.len() {
                                assert(ready(parents@, o, k, o[k] as int));
                            }
                            assert forall|j: int| 0 <= j < parents@[i2]@.len() implies before(
                                o2,
                                k,
                                #[trigger] parents@[i2]@[j],
                            ) by {
                                let q = parents@[i2]@[j];
                                let m = if k < o.len() {
                                    k
                                } else {
                                    o.len() as int
                                };
                                assert(before(o, m, q));
                                let p = choose|p: int| 0 <= p < m && #[trigger] o[p] == q;
                                assert(o2[p] == q);
                            }
                        }
                    }
                } else {
                    assert(!all_done(parents@, done@, i as int));
                }
            }
            i += 1;
        }
        proof {
            lemma_distinct_bound(order@, n as nat);
        }
    }
    proof {
        lemma_distinct_bound(order@, n as nat);
    }
    if order.len() == n {
        proof {
            lemma_order_is_ranking(parents@, order@);
        }
        Some(order)
    } else {
        proof {
            if acyclic(parents@) {
                let rank = choose|rank: Seq<nat>| ranked(parents@, rank);
                if forall|v: int| 0 <= v < n ==> #[trigger] done@[v] {
                    assert forall|v: int| 0 <= v < n implies order@.contains(#[trigger] (v as usize)) by {
                        assert(done@[v]);
                    }
                    lemma_all_contained(order@, n as nat);
                }
                let v = choose|v: int| 0 <= v < n && !#[trigger] done@[v];
                lemma_stuck(parents@, done@, rank, v);
            }
        }
        None
    }
}

/// A list that holds every position below `n` has at least `n` elements.
proof fn lemma_all_contained(order: Seq<usize>, n: nat)
    requires
        n <= usize::MAX,
        forall|v: int| 0 <= v < n ==> order.contains(#[trigger] (v as usize)),
    ensures
        order.len() >= n,
{
    let positions = Seq::new(n, |v: int| order.index_of(v as usize) as usize);
    if order.len() < n {
        assert forall|k: int| 0 <= k < positions.len() implies #[trigger] positions[k]
            < order.len() by {
            assert(order.contains(k as usize));
        }
        assert forall|a: int, b: int| 0 <= a < b < positions.len() implies #[trigger] positions[a]
            != #[trigger] positions[b] by {
            assert(order.contains(a as usize));
            assert(order.contains(b as usize));
            assert(order[order.index_of(a as usize)] == a as usize);
            assert(order[order.index_of(b as usize)] == b as usize);
        }
        lemma_distinct_bound(positions, order.len());
    }
}

} // verus!
