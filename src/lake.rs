//! Lakes of the steepest-descent tree and what holds while they are carved.
use vstd::prelude::*;
use vstd::multiset::Multiset;
use crate::forest::{in_range, lakes_of, walk, lemma_walk_fixed};
use crate::ridge_queue::{RidgeElement, ridge_max};
use crate::stream_tree::{adjacent, drains_along_edges, symmetric};

verus! {

/// What the steepest-descent tree tells of its lakes: keys fall along it, and
/// `subroot` names where each walk ends.
pub(crate) open spec fn lake_facts(orig: Seq<usize>, key: Seq<u64>, subroot: Seq<usize>) -> bool {
    let n = orig.len();
    &&& key.len() == n
    &&& subroot.len() == n
    &&& in_range(orig)
    &&& forall|i: int| 0 <= i < n && #[trigger] orig[i] != i ==> key[orig[i] as int] < key[i]
    &&& forall|i: int| 0 <= i < n ==> #[trigger] subroot[i] < n && subroot[subroot[i] as int] == subroot[i]
    &&& forall|i: int| 0 <= i < n ==> #[trigger] subroot[orig[i] as int] == subroot[i]
    &&& forall|i: int| 0 <= i < n && orig[i] == i ==> #[trigger] subroot[i] == i
}

/// `path` starts at `x`, steps from each site to one of its neighbors, and
/// ends at an outlet.
pub open spec fn path_to_outlet(g: Seq<Seq<(usize, u64)>>, is_outlet: Seq<bool>, x: int, path: Seq<int>) -> bool {
    &&& path.len() > 0
    &&& path[0] == x
    &&& forall|k: int| 0 <= k < path.len() ==> 0 <= #[trigger] path[k] < g.len()
    &&& is_outlet[path.last()]
    &&& forall|k: int| 0 <= k < path.len() - 1 ==> #[trigger] adjacent(g, path[k], path[k + 1])
}

/// Site `x` is joined to an outlet by some path.
pub open spec fn linked_somehow(g: Seq<Seq<(usize, u64)>>, is_outlet: Seq<bool>, x: int) -> bool {
    exists|path: Seq<int>| #[trigger] path_to_outlet(g, is_outlet, x, path)
}

/// Every site is joined to an outlet by some path.
pub open spec fn all_linked(g: Seq<Seq<(usize, u64)>>, is_outlet: Seq<bool>) -> bool {
    forall|x: int| 0 <= x < g.len() ==> #[trigger] linked_somehow(g, is_outlet, x)
}

/// The walk from `x` stands on an outlet after some number of steps.
pub open spec fn reaches_outlet(next: Seq<usize>, is_outlet: Seq<bool>, x: int) -> bool {
    exists|d: nat| #[trigger] is_outlet[walk(next, x, d)]
}

/// Some element of the queue names site `w`.
pub(crate) open spec fn queued(q: Multiset<RidgeElement>, w: int) -> bool {
    exists|e: RidgeElement| #[trigger] q.count(e) > 0 && e.index == w
}

/// Site `k` lies in the lake with bottom `s` and drains out of it.
pub open spec fn exits(sub: Seq<usize>, next: Seq<usize>, s: int, k: int) -> bool {
    sub[k] == s && sub[next[k] as int] != s
}

/// Some site drains out of the lake with bottom `s`.
pub open spec fn has_exit(sub: Seq<usize>, next: Seq<usize>, s: int) -> bool {
    exists|k: int| 0 <= k < next.len() && #[trigger] exits(sub, next, s, k)
}

/// At most one site drains out of each lake.
pub open spec fn one_exit_per_lake(sub: Seq<usize>, next: Seq<usize>) -> bool {
    forall|s: int, k1: int, k2: int|
        0 <= k1 < next.len() && 0 <= k2 < next.len() && #[trigger] exits(sub, next, s, k1) && #[trigger] exits(
            sub,
            next,
            s,
            k2,
        ) ==> k1 == k2
}

/// Site `m` belongs to a drained part: its walk's end has a root.
pub(crate) open spec fn drained(root: Seq<Option<usize>>, sub: Seq<usize>, m: int) -> bool {
    root[sub[m] as int] is Some
}

/// What holds between the steps of lake carving: undrained lakes are as the
/// steepest-descent tree left them; drained sites drain into drained sites of
/// smaller rank, or are outlets; visited sites are drained.
pub(crate) open spec fn carving_state(
    orig: Seq<usize>,
    key: Seq<u64>,
    sub: Seq<usize>,
    g: Seq<Seq<(usize, u64)>>,
    table: Seq<bool>,
    next: Seq<usize>,
    root: Seq<Option<usize>>,
    rank: Seq<nat>,
    visited: Seq<bool>,
) -> bool {
    let n = orig.len();
    &&& lake_facts(orig, key, sub)
    &&& next.len() == n && root.len() == n && rank.len() == n && visited.len() == n && g.len() == n && table.len() == n
    &&& in_range(next)
    &&& symmetric(g)
    &&& drains_along_edges(g, next)
    &&& forall|o: int| 0 <= o < n && #[trigger] table[o] ==> root[o] is Some && next[o] == o && orig[o] == o
    &&& forall|m: int| 0 <= m < n && !drained(root, sub, m) ==> #[trigger] next[m] == orig[m]
    &&& forall|m: int| 0 <= m < n && drained(root, sub, m) ==> drained(root, sub, #[trigger] next[m] as int)
    &&& forall|m: int| 0 <= m < n && drained(root, sub, m) && #[trigger] next[m] != m ==> rank[next[m] as int] < rank[m]
    &&& forall|m: int| 0 <= m < n && drained(root, sub, m) && #[trigger] next[m] == m ==> table[m]
    &&& forall|m: int| 0 <= m < n && #[trigger] visited[m] ==> drained(root, sub, m)
    &&& forall|m: int| 0 <= m < n && table[sub[m] as int] ==> #[trigger] next[m] == orig[m]
    &&& one_exit_per_lake(sub, next)
    &&& forall|t: int| 0 <= t < n && sub[t] == t && !table[t] && #[trigger] root[t] is Some ==> has_exit(sub, next, t)
}

pub(crate) proof fn lemma_carve_keeps_state(
    orig: Seq<usize>,
    key: Seq<u64>,
    sub: Seq<usize>,
    g: Seq<Seq<(usize, u64)>>,
    table: Seq<bool>,
    next0: Seq<usize>,
    next1: Seq<usize>,
    root0: Seq<Option<usize>>,
    root1: Seq<Option<usize>>,
    rank0: Seq<nat>,
    rank1: Seq<nat>,
    visited: Seq<bool>,
    lrank: Seq<nat>,
    i: int,
    j: int,
    lake: int,
)
    requires
        carving_state(orig, key, sub, g, table, next0, root0, rank0, visited),
        0 <= j < orig.len(),
        sub[j] == lake,
        next1[j] == i,
        forall|m: int| 0 <= m < orig.len() && sub[m] == lake && #[trigger] next1[m] == i ==> m == j,
        0 <= i < orig.len(),
        0 <= lake < orig.len(),
        root0[sub[i] as int] is Some,
        root0[lake] is None,
        root1 == root0.update(lake, root0[sub[i] as int]),
        next1.len() == orig.len(),
        in_range(next1),
        drains_along_edges(g, next1),
        lrank.len() == orig.len(),
        forall|m: int| 0 <= m < orig.len() && sub[m] != lake ==> #[trigger] next1[m] == next0[m],
        forall|m: int|
            0 <= m < orig.len() && sub[m] == lake ==> #[trigger] next1[m] != m && (next1[m] == i || (sub[next1[m] as int]
                == lake && lrank[next1[m] as int] < lrank[m])),
        rank1 == Seq::new(orig.len(), |m: int| if sub[m] == lake { rank0[i] + 1 + lrank[m] } else { rank0[m] }),
    ensures
        carving_state(orig, key, sub, g, table, next1, root1, rank1, visited),
        forall|m: int| 0 <= m < orig.len() && drained(root0, sub, m) ==> #[trigger] drained(root1, sub, m),
{
    let n = orig.len();
    assert(sub[i] != lake);
    assert forall|m: int| 0 <= m < n && drained(root0, sub, m) implies #[trigger] drained(root1, sub, m) by {}
    assert forall|m: int| 0 <= m < n && drained(root1, sub, m) implies drained(root1, sub, #[trigger] next1[m] as int) by {
        if sub[m] != lake {
            assert(drained(root0, sub, next0[m] as int));
        }
    }
    assert forall|m: int| 0 <= m < n && drained(root1, sub, m) && #[trigger] next1[m] != m implies rank1[next1[m] as int] < rank1[m] by {
        if sub[m] != lake {
            assert(drained(root0, sub, next0[m] as int));
            assert(sub[next0[m] as int] != lake);
        }
    }
    assert forall|o: int| 0 <= o < n && #[trigger] table[o] implies root1[o] is Some && next1[o] == o && orig[o] == o by {
        assert(sub[o] == o);
    }
    assert forall|m: int| 0 <= m < n && table[sub[m] as int] implies #[trigger] next1[m] == orig[m] by {
        assert(root0[sub[m] as int] is Some);
    }
    assert forall|t: int, k1: int, k2: int|
        0 <= k1 < n && 0 <= k2 < n && #[trigger] exits(sub, next1, t, k1) && #[trigger] exits(sub, next1, t, k2)
        implies k1 == k2 by {
        if t == lake {
            assert(next1[k1] == i);
            assert(next1[k2] == i);
        } else {
            assert(exits(sub, next0, t, k1));
            assert(exits(sub, next0, t, k2));
        }
    }
    assert forall|t: int| 0 <= t < n && sub[t] == t && !table[t] && #[trigger] root1[t] is Some implies has_exit(sub, next1, t) by {
        if t == lake {
            assert(exits(sub, next1, t, j));
        } else {
            assert(root0[t] is Some);
            let k = choose|k: int| 0 <= k < n && #[trigger] exits(sub, next0, t, k);
            assert(exits(sub, next1, t, k));
        }
    }
}

pub(crate) proof fn lemma_path_visited(g: Seq<Seq<(usize, u64)>>, table: Seq<bool>, visited: Seq<bool>, x: int, path: Seq<int>, k: int)
    requires
        visited.len() == g.len(),
        table.len() == g.len(),
        symmetric(g),
        forall|v: int, k: int| 0 <= v < g.len() && visited[v] && 0 <= k < g[v].len() ==> #[trigger] visited[g[v][k].0 as int],
        forall|o: int| 0 <= o < g.len() && #[trigger] table[o] ==> visited[o],
        path_to_outlet(g, table, x, path),
        0 <= k < path.len(),
    ensures
        visited[path[k]],
    decreases path.len() - k,
{
    if k == path.len() - 1 {
        assert(table[path[k]]);
    } else {
        lemma_path_visited(g, table, visited, x, path, k + 1);
        let y = path[k + 1];
        assert(adjacent(g, path[k], y));
        assert(adjacent(g, y, path[k]));
        let k2 = choose|k2: int| 0 <= k2 < g[y].len() && #[trigger] g[y][k2].0 == path[k];
        assert(visited[g[y][k2].0 as int]);
    }
}

pub(crate) proof fn lemma_rank_reaches(next: Seq<usize>, root: Seq<Option<usize>>, sub: Seq<usize>, rank: Seq<nat>, table: Seq<bool>, m: int)
    requires
        in_range(next),
        root.len() == next.len(),
        sub.len() == next.len(),
        rank.len() == next.len(),
        table.len() == next.len(),
        forall|i: int| 0 <= i < next.len() ==> #[trigger] sub[i] < next.len(),
        forall|m: int| 0 <= m < next.len() && drained(root, sub, m) ==> drained(root, sub, #[trigger] next[m] as int),
        forall|m: int| 0 <= m < next.len() && drained(root, sub, m) && #[trigger] next[m] != m ==> rank[next[m] as int] < rank[m],
        forall|m: int| 0 <= m < next.len() && drained(root, sub, m) && #[trigger] next[m] == m ==> table[m],
        0 <= m < next.len(),
        drained(root, sub, m),
    ensures
        table[walk(next, m, rank[m])],
        next[walk(next, m, rank[m])] == walk(next, m, rank[m]),
    decreases rank[m],
{
    if next[m] == m {
        assert(walk(next, m, 0) == m);
        lemma_walk_fixed(next, m, 0, rank[m]);
    } else {
        let y = next[m] as int;
        lemma_rank_reaches(next, root, sub, rank, table, y);
        lemma_walk_fixed(next, y, rank[y], (rank[m] - 1) as nat);
        assert(walk(next, m, rank[m]) == walk(next, y, (rank[m] - 1) as nat));
    }
}

/// How many sites are not yet visited.
pub open spec fn unvisited(s: Seq<bool>) -> nat
    decreases s.len(),
{
    if s.len() == 0 {
        0
    } else {
        unvisited(s.drop_last()) + if s.last() {
            0nat
        } else {
            1nat
        }
    }
}

pub(crate) proof fn lemma_unvisited_visit(s: Seq<bool>, i: int)
    requires
        0 <= i < s.len(),
        !s[i],
    ensures
        unvisited(s) > 0,
        unvisited(s.update(i, true)) == unvisited(s) - 1,
    decreases s.len(),
{
    let t = s.update(i, true);
    if i == s.len() - 1 {
        assert(t.drop_last() =~= s.drop_last());
    } else {
        assert(t.drop_last() =~= s.drop_last().update(i, true));
        lemma_unvisited_visit(s.drop_last(), i);
    }
}


/// A drained site is joined to an outlet: following the tree, rank falls at
/// each step along an edge until an outlet.
pub(crate) proof fn lemma_drained_linked(
    g: Seq<Seq<(usize, u64)>>,
    table: Seq<bool>,
    next: Seq<usize>,
    root: Seq<Option<usize>>,
    sub: Seq<usize>,
    rank: Seq<nat>,
    m: int,
)
    requires
        in_range(next),
        g.len() == next.len(),
        root.len() == next.len(),
        sub.len() == next.len(),
        rank.len() == next.len(),
        table.len() == next.len(),
        drains_along_edges(g, next),
        forall|i: int| 0 <= i < next.len() ==> #[trigger] sub[i] < next.len(),
        forall|m: int| 0 <= m < next.len() && drained(root, sub, m) ==> drained(root, sub, #[trigger] next[m] as int),
        forall|m: int| 0 <= m < next.len() && drained(root, sub, m) && #[trigger] next[m] != m ==> rank[next[m] as int] < rank[m],
        forall|m: int| 0 <= m < next.len() && drained(root, sub, m) && #[trigger] next[m] == m ==> table[m],
        0 <= m < next.len(),
        drained(root, sub, m),
    ensures
        linked_somehow(g, table, m),
    decreases rank[m],
{
    if next[m] == m {
        let p = seq![m];
        assert(path_to_outlet(g, table, m, p));
    } else {
        let y = next[m] as int;
        lemma_drained_linked(g, table, next, root, sub, rank, y);
        let q = choose|q: Seq<int>| #[trigger] path_to_outlet(g, table, y, q);
        let p = seq![m] + q;
        assert(adjacent(g, m, y));
        assert forall|k: int| 0 <= k < p.len() - 1 implies #[trigger] adjacent(g, p[k], p[k + 1]) by {
            if k > 0 {
                assert(p[k] == q[k - 1] && p[k + 1] == q[k]);
                assert(adjacent(g, q[k - 1], q[(k - 1) + 1]));
            }
        }
        assert forall|k: int| 0 <= k < p.len() implies 0 <= #[trigger] p[k] < g.len() by {
            if k > 0 {
                assert(p[k] == q[k - 1]);
            }
        }
        assert(p.last() == q.last());
        assert(path_to_outlet(g, table, m, p));
    }
}

/// The state of lake carving between two sites taken from the ridge queue.
pub struct CarveState {
    pub next: Seq<usize>,
    pub root: Seq<Option<usize>>,
    pub visited: Seq<bool>,
    pub queue: Multiset<RidgeElement>,
}

/// Reverses the flow from `k` down to the bottom of its lake, `k` now draining
/// into `nk`; at most `fuel` sites are reversed before the last one.
pub open spec fn flip(next: Seq<usize>, k: int, nk: usize, fuel: nat) -> Seq<usize>
    decreases fuel,
{
    if fuel > 0 && next[k] != k {
        flip(next.update(k, nk), next[k] as int, k as usize, (fuel - 1) as nat)
    } else {
        next.update(k, nk)
    }
}

/// Site `i` looks at its neighbors from the `k`-th on: each unvisited one is
/// queued, after its lake is carved into `i` if that lake has no root yet.
pub open spec fn scan(st: CarveState, sub: Seq<usize>, i: int, nb: Seq<(usize, u64)>, k: int) -> CarveState
    decreases nb.len() - k,
{
    if k < 0 || k >= nb.len() {
        st
    } else {
        let j = nb[k].0 as int;
        let st2 = if st.visited[j] {
            st
        } else {
            let st1 = if st.root[sub[j] as int] is None {
                CarveState {
                    next: flip(st.next, j, i as usize, st.next.len()),
                    root: st.root.update(sub[j] as int, st.root[sub[i] as int]),
                    visited: st.visited,
                    queue: st.queue,
                }
            } else {
                st
            };
            CarveState {
                next: st1.next,
                root: st1.root,
                visited: st1.visited,
                queue: st1.queue.insert(RidgeElement { index: j as usize, dist: nb[k].1 }),
            }
        };
        scan(st2, sub, i, nb, k + 1)
    }
}

/// One site taken from the ridge queue and, unless already visited, handled.
pub open spec fn step(st: CarveState, sub: Seq<usize>, g: Seq<Seq<(usize, u64)>>) -> CarveState {
    let e = ridge_max(st.queue);
    let i = e.index as int;
    let popped = CarveState { next: st.next, root: st.root, visited: st.visited, queue: st.queue.remove(e) };
    if st.visited[i] {
        popped
    } else {
        let s1 = scan(popped, sub, i, g[i], 0);
        CarveState {
            next: s1.next,
            root: s1.root.update(i, s1.root[sub[i] as int]),
            visited: s1.visited.update(i, true),
            queue: s1.queue,
        }
    }
}

/// The tree once the ridge queue is empty.
pub open spec fn run(st: CarveState, sub: Seq<usize>, g: Seq<Seq<(usize, u64)>>) -> Seq<usize>
    decreases unvisited(st.visited), st.queue.len(),
{
    if st.queue.len() == 0 {
        st.next
    } else {
        let s2 = step(st, sub, g);
        if unvisited(s2.visited) < unvisited(st.visited) || (unvisited(s2.visited) == unvisited(st.visited)
            && s2.queue.len() < st.queue.len()) {
            run(s2, sub, g)
        } else {
            st.next
        }
    }
}

/// The outlets, each queued with key 0.
pub open spec fn seeds(outlets: Seq<usize>) -> Seq<RidgeElement> {
    Seq::new(outlets.len(), |k: int| RidgeElement { index: outlets[k], dist: 0 })
}

/// The state before carving: the outlets are their own roots and queued.
pub open spec fn initial_state(next: Seq<usize>, outlets: Seq<usize>) -> CarveState {
    CarveState {
        next,
        root: Seq::new(next.len(), |m: int| if outlets.contains(m as usize) { Some(m as usize) } else { None }),
        visited: Seq::new(next.len(), |m: int| false),
        queue: seeds(outlets).to_multiset(),
    }
}

/// The steepest-descent tree `next` with its lakes carved: the result of
/// taking sites from the ridge queue, greatest key first, until it is empty.
pub open spec fn carved_tree(next: Seq<usize>, g: Seq<Seq<(usize, u64)>>, outlets: Seq<usize>) -> Seq<usize> {
    run(initial_state(next, outlets), lakes_of(next), g)
}

} // verus!
