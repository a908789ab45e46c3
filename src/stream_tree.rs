//! The stream tree: steepest descent, lake detection and lake carving.
use vstd::prelude::*;
use vstd::seq_lib::to_multiset_build;
use vstd::multiset::Multiset;
use vstd::set_lib::{lemma_int_range, lemma_len_subset, set_int_range};
use crate::ridge_queue::{RidgeElement, RidgeQueue, ridge_max};
use crate::drainage_basin::{reaches_root, upstream_order};
use crate::lake::{drained, lemma_drained_linked, flip, seeds, initial_state, CarveState, run, scan, step, carved_tree, exits, has_exit, one_exit_per_lake, all_linked, carving_state, lake_facts, lemma_carve_keeps_state, lemma_path_visited, lemma_rank_reaches, lemma_unvisited_visit, path_to_outlet, queued, reaches_outlet, unvisited, linked_somehow};
use crate::forest::{lakes_of, is_stream_forest, lemma_terminal_fixed, lemma_terminal_step, lemma_distinct_indices, lemma_descending_settles, in_range, outlet_table, settles, terminal, walk, lemma_walk_add, lemma_walk_fixed, lemma_walk_in_range, lemma_walk_step};

verus! {

/// An undirected graph over the sites `0..n`. `neighbors[i]` lists the
/// neighbors of site `i` in enumeration order, each with the order key of the
/// edge's length (a longer edge has a larger key).
pub struct SiteGraph {
    pub neighbors: Vec<Vec<(usize, u64)>>,
}

impl SiteGraph {
    pub open spec fn view(&self) -> Seq<Seq<(usize, u64)>> {
        Seq::new(self.neighbors@.len(), |i: int| self.neighbors@[i]@)
    }

    /// Every neighbor names one of the `n` sites.
    pub open spec fn wf(&self, n: nat) -> bool {
        &&& self@.len() == n
        &&& forall|i: int, k: int|
            0 <= i < n && 0 <= k < self@[i].len() ==> (#[trigger] self@[i][k]).0 < n
    }
}

/// Site `b` is listed among the neighbors of site `a`.
pub open spec fn adjacent(g: Seq<Seq<(usize, u64)>>, a: int, b: int) -> bool {
    exists|k: int| 0 <= k < g[a].len() && #[trigger] g[a][k].0 == b
}

/// Every edge is listed at both of its ends.
pub open spec fn symmetric(g: Seq<Seq<(usize, u64)>>) -> bool {
    forall|a: int, b: int| 0 <= a < g.len() && #[trigger] adjacent(g, a, b) ==> adjacent(g, b, a)
}

/// Every site that is not a self-loop drains into one of its neighbors.
pub open spec fn drains_along_edges(g: Seq<Seq<(usize, u64)>>, next: Seq<usize>) -> bool {
    forall|x: int| 0 <= x < next.len() && #[trigger] next[x] != x ==> adjacent(g, x, next[x] as int)
}

/// Tree structure for the flow of water: `next[i]` is the site that site `i`
/// drains into; an outlet drains into itself.
pub struct StreamTree {
    pub next: Vec<usize>,
}

/// Why a stream tree could not be built.
#[derive(Debug, Clone, Copy, PartialEq, Eq, Structural)]
pub enum TreeError {
    /// Some site does not drain to any outlet after the lakes were carved (for
    /// instance a part of the graph that holds no outlet).
    Unreachable,
}

/// The steepest strictly lower neighbor among the first `k` neighbors of `i`,
/// with its slope key: the first one that reaches a strictly larger slope key
/// than all before it wins; `(i, 0)` when none is lower with a positive slope.
pub open spec fn steepest_upto(
    i: int,
    neighbors: Seq<(usize, u64)>,
    slopes: Seq<u64>,
    elevation: Seq<u64>,
    k: int,
) -> (int, u64)
    decreases k,
{
    if k <= 0 {
        (i, 0)
    } else {
        let best = steepest_upto(i, neighbors, slopes, elevation, k - 1);
        let j = neighbors[k - 1].0 as int;
        if elevation[i] > elevation[j] && slopes[k - 1] > best.1 {
            (j, slopes[k - 1])
        } else {
            best
        }
    }
}

/// The steepest-descent tree: each non-outlet site drains into its steepest
/// strictly lower neighbor, or into itself when it has none.
pub open spec fn steepest_tree(
    elevation: Seq<u64>,
    slopes: Seq<Seq<u64>>,
    graph: Seq<Seq<(usize, u64)>>,
    is_outlet: Seq<bool>,
) -> Seq<usize> {
    Seq::new(
        is_outlet.len(),
        |i: int|
            if is_outlet[i] {
                i as usize
            } else {
                steepest_upto(i, graph[i], slopes[i], elevation, graph[i].len() as int).0 as usize
            },
    )
}

/// Whether some walk of the tree ends at a site that is not an outlet.
pub open spec fn has_lake(next: Seq<usize>, is_outlet: Seq<bool>) -> bool {
    exists|i: int| 0 <= i < next.len() && !#[trigger] is_outlet[terminal(next, i)]
}

proof fn lemma_steepest_upto(
    i: int,
    neighbors: Seq<(usize, u64)>,
    slopes: Seq<u64>,
    elevation: Seq<u64>,
    k: int,
)
    requires
        0 <= i < elevation.len(),
        0 <= k <= neighbors.len(),
        slopes.len() == neighbors.len(),
        forall|m: int| 0 <= m < neighbors.len() ==> (#[trigger] neighbors[m]).0 < elevation.len(),
    ensures
        ({
            let best = steepest_upto(i, neighbors, slopes, elevation, k);
            &&& 0 <= best.0 < elevation.len()
            &&& best.0 != i ==> elevation[best.0] < elevation[i]
            &&& best.0 != i ==> exists|m: int| 0 <= m < neighbors.len() && #[trigger] neighbors[m].0 == best.0
        }),
    decreases k,
{
    if k > 0 {
        lemma_steepest_upto(i, neighbors, slopes, elevation, k - 1);
        let best = steepest_upto(i, neighbors, slopes, elevation, k);
        if best.0 != i && best.0 == neighbors[k - 1].0 as int {
            assert(neighbors[k - 1].0 == best.0);
        }
    }
}

impl StreamTree {
    /// Marks the listed outlets among the sites.
    pub fn create_outlet_table<S>(sites: &[S], outlets: &[usize]) -> (is_outlet: Vec<bool>)
        requires
            forall|k: int| 0 <= k < outlets@.len() ==> #[trigger] outlets@[k] < sites@.len(),
        ensures
            is_outlet@ == outlet_table(sites@.len() as nat, outlets@),
    {
        let n = sites.len();
        let mut is_outlet: Vec<bool> = Vec::new();
        let mut i: usize = 0;
        while i < n
            invariant
                i <= n,
                n == sites@.len(),
                is_outlet@.len() == i,
                forall|m: int| 0 <= m < i ==> !#[trigger] is_outlet@[m],
            decreases n - i,
        {
            is_outlet.push(false);
            i = i + 1;
        }
        let mut k: usize = 0;
        while k < outlets.len()
            invariant
                k <= outlets@.len(),
                n == sites@.len(),
                is_outlet@.len() == n,
                forall|k: int| 0 <= k < outlets@.len() ==> #[trigger] outlets@[k] < n,
                forall|m: int|
                    0 <= m < n ==> (#[trigger] is_outlet@[m] <==> outlets@.subrange(0, k as int).contains(
                        m as usize,
                    )),
            decreases outlets@.len() - k,
        {
            let o = outlets[k];
            is_outlet.set(o, true);
            proof {
                assert forall|m: int| 0 <= m < n implies (#[trigger] is_outlet@[m] <==> outlets@.subrange(
                    0,
                    k + 1,
                ).contains(m as usize)) by {
                    let pre = outlets@.subrange(0, k as int);
                    let post = outlets@.subrange(0, k + 1);
                    assert(post == pre.push(o));
                    if pre.contains(m as usize) {
                        let w = choose|w: int| 0 <= w < pre.len() && pre[w] == m as usize;
                        assert(post[w] == m as usize);
                    }
                    if post.contains(m as usize) && m != o {
                        let w = choose|w: int| 0 <= w < post.len() && post[w] == m as usize;
                        assert(pre[w] == m as usize);
                    }
                    if m == o {
                        assert(post[k as int] == o);
                    }
                }
            }
            k = k + 1;
        }
        assert(outlets@.subrange(0, outlets@.len() as int) == outlets@);
        assert(is_outlet@ =~= outlet_table(n as nat, outlets@));
        is_outlet
    }

    /// Phase A: every non-outlet site drains into its steepest strictly lower
    /// neighbor; a site with none (a local minimum) drains into itself.
    fn construct_initial_stream_tree(
        num: usize,
        elevation: &Vec<u64>,
        slopes: &Vec<Vec<u64>>,
        graph: &SiteGraph,
        is_outlet: &Vec<bool>,
    ) -> (next: Vec<usize>)
        requires
            elevation@.len() == num,
            is_outlet@.len() == num,
            graph.wf(num as nat),
            slopes@.len() == num,
            forall|i: int| 0 <= i < num ==> (#[trigger] slopes@[i])@.len() == graph@[i].len(),
        ensures
            next@ == steepest_tree(elevation@, Seq::new(num as nat, |i: int| slopes@[i]@), graph@, is_outlet@),
            in_range(next@),
            forall|i: int| 0 <= i < num && #[trigger] next@[i] != i ==> elevation@[next@[i] as int] < elevation@[i],
            drains_along_edges(graph@, next@),
    {
        let ghost sl = Seq::new(num as nat, |i: int| slopes@[i]@);
        let mut next: Vec<usize> = Vec::new();
        let mut i: usize = 0;
        while i < num
            invariant
                i <= num,
                elevation@.len() == num,
                is_outlet@.len() == num,
                graph.wf(num as nat),
                slopes@.len() == num,
                sl == Seq::new(num as nat, |i: int| slopes@[i]@),
                forall|i: int| 0 <= i < num ==> (#[trigger] slopes@[i])@.len() == graph@[i].len(),
                next@.len() == i,
                forall|m: int| 0 <= m < i ==> #[trigger] next@[m] == steepest_tree(elevation@, sl, graph@, is_outlet@)[m],
            decreases num - i,
        {
            let mut best: usize = i;
            if !is_outlet[i] {
                let nbrs = &graph.neighbors[i];
                let sli = &slopes[i];
                let mut steepest: u64 = 0;
                let mut k: usize = 0;
                assert(nbrs@ == graph@[i as int]);
                while k < nbrs.len()
                    invariant
                        i < num,
                        k <= nbrs@.len(),
                        elevation@.len() == num,
                        graph.wf(num as nat),
                        nbrs@ == graph@[i as int],
                        sli@.len() == nbrs@.len(),
                        (best as int, steepest) == steepest_upto(i as int, nbrs@, sli@, elevation@, k as int),
                    decreases nbrs@.len() - k,
                {
                    let j = nbrs[k].0;
                    assert(nbrs@[k as int] == graph@[i as int][k as int]);
                    if elevation[i] > elevation[j] && sli[k] > steepest {
                        steepest = sli[k];
                        best = j;
                    }
                    k = k + 1;
                }
            }
            next.push(best);
            i = i + 1;
        }
        proof {
            assert(next@ =~= steepest_tree(elevation@, sl, graph@, is_outlet@));
            assert forall|i: int| 0 <= i < num implies #[trigger] next@[i] < num && (next@[i] != i
                ==> elevation@[next@[i] as int] < elevation@[i] && adjacent(graph@, i, next@[i] as int)) by {
                if !is_outlet@[i] {
                    assert forall|m: int| 0 <= m < graph@[i].len() implies (#[trigger] graph@[i][m]).0
                        < elevation@.len() by {}
                    lemma_steepest_upto(i, graph@[i], sl[i], elevation@, graph@[i].len() as int);
                }
            }
        }
        next
    }

    /// Phase B: the site at which each walk along `next` ends (an outlet, or
    /// the bottom of a lake), and whether any walk ends at a lake bottom.
    pub fn find_roots_with_lakes(num: usize, is_outlet: &[bool], next: &[usize]) -> (r: (Vec<usize>, bool))
        requires
            next@.len() == num,
            is_outlet@.len() == num,
            in_range(next@),
            settles(next@),
            forall|o: int| 0 <= o < num && #[trigger] is_outlet@[o] ==> next@[o] == o,
        ensures
            r.0@ == Seq::new(num as nat, |i: int| terminal(next@, i) as usize),
            r.1 == has_lake(next@, is_outlet@),
    {
        let ghost nx = next@;
        let mut subroot: Vec<Option<usize>> = Vec::new();
        let mut i: usize = 0;
        while i < num
            invariant
                i <= num,
                is_outlet@.len() == num,
                next@.len() == num,
                subroot@.len() == i,
                forall|m: int| 0 <= m < i ==> #[trigger] subroot@[m] == if is_outlet@[m] { Some(m as usize) } else { None },
            decreases num - i,
        {
            if is_outlet[i] {
                subroot.push(Some(i));
            } else {
                subroot.push(None);
            }
            i = i + 1;
        }
        proof {
            assert forall|m: int| 0 <= m < num && #[trigger] is_outlet@[m] implies terminal(nx, m) == m by {
                assert(walk(nx, m, 0) == m);
                lemma_walk_fixed(nx, m, 0, num as nat);
            }
        }
        let mut has_lake = false;
        let mut i: usize = 0;
        while i < num
            invariant
                i <= num,
                nx == next@,
                is_outlet@.len() == num,
                next@.len() == num,
                in_range(nx),
                settles(nx),
                forall|o: int| 0 <= o < num && #[trigger] is_outlet@[o] ==> next@[o] == o,
                subroot@.len() == num,
                forall|m: int| 0 <= m < num && #[trigger] subroot@[m] is Some ==> subroot@[m]->0 == terminal(nx, m),
                forall|m: int| 0 <= m < num && #[trigger] is_outlet@[m] ==> subroot@[m] is Some,
                forall|m: int| 0 <= m < i ==> #[trigger] subroot@[m] is Some,
                has_lake <==> exists|m: int| 0 <= m < num && #[trigger] subroot@[m] is Some && !is_outlet@[terminal(nx, m)],
            decreases num - i,
        {
            let ghost start = subroot@;
            let ghost had = has_lake;
            if subroot[i].is_none() {
                let mut iv = i;
                let ghost mut steps: nat = 0;
                while subroot[iv].is_none() && iv != next[iv]
                    invariant
                        i < num,
                        next@.len() == num,
                        nx == next@,
                        in_range(nx),
                        settles(nx),
                        subroot@.len() == num,
                        iv < num,
                        steps <= num,
                        iv == walk(nx, i as int, steps),
                    decreases num - steps,
                {
                    proof {
                        if steps == num {
                            assert(nx[terminal(nx, i as int)] == terminal(nx, i as int));
                        }
                        lemma_walk_step(nx, i as int, steps);
                    }
                    iv = next[iv];
                    proof {
                        steps = steps + 1;
                    }
                }
                proof {
                    lemma_walk_add(nx, i as int, steps, num as nat);
                    lemma_walk_in_range(nx, i as int, num as nat);
                    assert(nx[terminal(nx, i as int)] == terminal(nx, i as int));
                    lemma_walk_fixed(nx, i as int, num as nat, (steps + num) as nat);
                }
                let ghost bottom = iv;
                let ir: usize = match subroot[iv] {
                    None => {
                        proof {
                            assert(walk(nx, iv as int, 0) == iv);
                            lemma_walk_fixed(nx, iv as int, 0, num as nat);
                        }
                        has_lake = true;
                        iv
                    },
                    Some(r) => r,
                };
                assert(ir == terminal(nx, i as int));
                let ghost before = subroot@;
                let mut iv = i;
                let ghost mut steps: nat = 0;
                while subroot[iv].is_none() && iv != next[iv]
                    invariant
                        i < num,
                        next@.len() == num,
                        nx == next@,
                        in_range(nx),
                        settles(nx),
                        subroot@.len() == num,
                        iv < num,
                        steps <= num,
                        iv == walk(nx, i as int, steps),
                        ir == terminal(nx, i as int),
                        steps > 0 ==> subroot@[i as int] is Some,
                        steps == 0 ==> iv == i,
                        forall|m: int| 0 <= m < num && #[trigger] subroot@[m] is Some ==> subroot@[m]->0 == terminal(nx, m),
                        forall|m: int| 0 <= m < num && #[trigger] before[m] is Some ==> subroot@[m] is Some,
                        forall|m: int| 0 <= m < num && #[trigger] subroot@[m] is Some ==> before[m] is Some || subroot@[m]->0 == ir,
                    decreases num - steps,
                {
                    proof {
                        if steps == num {
                            assert(nx[terminal(nx, i as int)] == terminal(nx, i as int));
                        }
                        lemma_walk_add(nx, i as int, steps, num as nat);
                        assert(nx[terminal(nx, i as int)] == terminal(nx, i as int));
                        lemma_walk_fixed(nx, i as int, num as nat, (steps + num) as nat);
                        lemma_walk_step(nx, i as int, steps);
                    }
                    subroot.set(iv, Some(ir));
                    iv = next[iv];
                    proof {
                        steps = steps + 1;
                    }
                }
                proof {
                    lemma_walk_add(nx, i as int, steps, num as nat);
                    assert(nx[terminal(nx, i as int)] == terminal(nx, i as int));
                    lemma_walk_fixed(nx, i as int, num as nat, (steps + num) as nat);
                }
                subroot.set(iv, Some(ir));
                proof {
                    assert(subroot@[i as int] is Some);
                    assert forall|m: int| 0 <= m < i + 1 implies #[trigger] subroot@[m] is Some by {
                        if m < i {
                            assert(start[m] is Some);
                            assert(before[m] is Some);
                        }
                    }
                    if has_lake {
                        if had {
                            let w = choose|m: int| 0 <= m < num && #[trigger] start[m] is Some && !is_outlet@[terminal(nx, m)];
                            assert(before[w] is Some);
                            assert(subroot@[w] is Some);
                        } else {
                            assert(!is_outlet@[bottom as int]);
                            assert(subroot@[i as int] is Some && !is_outlet@[terminal(nx, i as int)]);
                        }
                    } else {
                        assert forall|m: int| 0 <= m < num && #[trigger] subroot@[m] is Some implies is_outlet@[terminal(nx, m)] by {
                            if before[m] is Some {
                                assert(start[m] is Some);
                            } else {
                                assert(subroot@[m]->0 == ir);
                                assert(start[bottom as int] is Some);
                            }
                        }
                    }
                    if !is_outlet@[ir as int] {
                        assert(is_outlet@[terminal(nx, iv as int)] == is_outlet@[ir as int]);
                    }
                }
            }
            i = i + 1;
        }
        let mut roots: Vec<usize> = Vec::new();
        let mut k: usize = 0;
        while k < num
            invariant
                k <= num,
                subroot@.len() == num,
                forall|m: int| 0 <= m < num ==> #[trigger] subroot@[m] is Some,
                forall|m: int| 0 <= m < num && #[trigger] subroot@[m] is Some ==> subroot@[m]->0 == terminal(nx, m),
                roots@.len() == k,
                forall|m: int| 0 <= m < k ==> #[trigger] roots@[m] == terminal(nx, m) as usize,
            decreases num - k,
        {
            assert(subroot@[k as int] is Some);
            let r = subroot[k].unwrap();
            roots.push(r);
            k = k + 1;
        }
        assert(roots@ =~= Seq::new(num as nat, |i: int| terminal(nx, i) as usize));
        proof {
            if has_lake {
                let m = choose|m: int| 0 <= m < num && #[trigger] subroot@[m] is Some && !is_outlet@[terminal(nx, m)];
                assert(!is_outlet@[terminal(nx, m)]);
            } else {
                assert forall|m: int| 0 <= m < num implies #[trigger] is_outlet@[terminal(nx, m)] by {
                    assert(subroot@[m] is Some);
                }
            }
        }
        (roots, has_lake)
    }

    /// Reverses the flow from `j` down to the bottom of its lake and lets `j`
    /// drain into `i`. Returns a ghost rank under which every lake site drains
    /// into `i` or into a lake site of smaller rank.
    fn carve(
        next: &mut Vec<usize>,
        j: usize,
        i: usize,
        Ghost(orig): Ghost<Seq<usize>>,
        Ghost(key): Ghost<Seq<u64>>,
        Ghost(subroot): Ghost<Seq<usize>>,
        Ghost(g): Ghost<Seq<Seq<(usize, u64)>>>,
    ) -> (lrank: Ghost<Seq<nat>>)
        requires
            lake_facts(orig, key, subroot),
            old(next)@.len() == orig.len(),
            g.len() == orig.len(),
            in_range(old(next)@),
            symmetric(g),
            drains_along_edges(g, old(next)@),
            j < orig.len(),
            i < orig.len(),
            subroot[i as int] != subroot[j as int],
            adjacent(g, i as int, j as int),
            forall|m: int| 0 <= m < orig.len() && subroot[m] == subroot[j as int] ==> #[trigger] old(next)@[m] == orig[m],
        ensures
            final(next)@.len() == orig.len(),
            in_range(final(next)@),
            drains_along_edges(g, final(next)@),
            lrank@.len() == orig.len(),
            forall|m: int| 0 <= m < orig.len() && subroot[m] != subroot[j as int] ==> #[trigger] final(next)@[m] == old(next)@[m],
            forall|m: int|
                0 <= m < orig.len() && subroot[m] == subroot[j as int] ==> #[trigger] final(next)@[m] != m && (final(next)@[m] == i || (
                subroot[final(next)@[m] as int] == subroot[j as int] && lrank@[final(next)@[m] as int] < lrank@[m])),
            final(next)@[j as int] == i,
            forall|m: int| 0 <= m < orig.len() && subroot[m] == subroot[j as int] && #[trigger] final(next)@[m] == i ==> m == j,
            final(next)@ == flip(old(next)@, j as int, i, orig.len()),
    {
        let ghost n = orig.len();
        let ghost lake = subroot[j as int];
        let ghost start = next@;
        let mut kk = j;
        let mut nk = i;
        let ghost mut chain: Set<int> = Set::empty();
        let ghost mut rank: Seq<nat> = Seq::new(n, |m: int| 0nat);
        let ghost mut s: nat = 0;
        proof {
            assert(adjacent(g, j as int, i as int));
            assert(chain =~= Set::<int>::empty());
        }
        while next[kk] != kk
            invariant
                lake_facts(orig, key, subroot),
                n == orig.len(),
                next@.len() == n,
                g.len() == n,
                rank.len() == n,
                in_range(next@),
                symmetric(g),
                drains_along_edges(g, next@),
                i < n,
                subroot[i as int] != lake,
                lake == subroot[j as int],
                kk < n,
                nk < n,
                subroot[kk as int] == lake,
                adjacent(g, kk as int, nk as int),
                !chain.contains(kk as int),
                forall|c: int| #[trigger] chain.contains(c) ==> 0 <= c < n && subroot[c] == lake && key[c] > key[kk as int],
                forall|m: int| 0 <= m < n && subroot[m] == lake && !chain.contains(m) ==> #[trigger] next@[m] == orig[m],
                forall|m: int| 0 <= m < n && subroot[m] != lake ==> #[trigger] next@[m] == start[m],
                nk != i ==> chain.contains(nk as int) && rank[nk as int] == s,
                kk == j ==> nk == i,
                kk == j || next@[j as int] == i,
                nk == i ==> kk == j,
                kk != j ==> chain.contains(j as int),
                forall|c: int| #[trigger] chain.contains(c) && next@[c] == i ==> c == j,
                chain.finite(),
                chain.len() == s,
                s < n,
                flip(next@, kk as int, nk, (n - s) as nat) == flip(start, j as int, i, n),
                forall|c: int| #[trigger] chain.contains(c) ==> next@[c] != c && rank[c] <= s && (next@[c] == i || (chain.contains(
                    next@[c] as int) && rank[next@[c] as int] < rank[c])),
            decreases key[kk as int],
        {
            let tmp = next[kk];
            proof {
                assert(adjacent(g, kk as int, tmp as int));
                assert(adjacent(g, tmp as int, kk as int));
                assert(next@[kk as int] == orig[kk as int]);
                assert(key[tmp as int] < key[kk as int]);
            }
            let ghost before = next@;
            next.set(kk, nk);
            proof {
                assert forall|x: int| 0 <= x < n && #[trigger] next@[x] != x implies adjacent(g, x, next@[x] as int) by {
                    if x != kk {
                        assert(next@[x] == before[x]);
                    }
                }
                if nk != i {
                    assert(chain.contains(nk as int));
                    assert(nk != kk);
                } else {
                    assert(subroot[kk as int] != subroot[i as int]);
                }
                assert(flip(before, kk as int, nk, (n - s) as nat) == flip(next@, tmp as int, kk, (n - s - 1) as nat));
                rank = rank.update(kk as int, s + 1);
                chain = chain.insert(kk as int);
                s = s + 1;
                assert(chain.insert(tmp as int).subset_of(set_int_range(0, n as int)));
                lemma_int_range(0, n as int);
                lemma_len_subset(chain.insert(tmp as int), set_int_range(0, n as int));
            }
            nk = kk;
            kk = tmp;
        }
        // the lake bottom drains into the last reversed site
        let ghost before = next@;
        next.set(kk, nk);
        proof {
            assert(next@[kk as int] == nk);
            assert forall|x: int| 0 <= x < n && #[trigger] next@[x] != x implies adjacent(g, x, next@[x] as int) by {
                if x != kk {
                    assert(next@[x] == before[x]);
                }
            }
            if nk != i {
                assert(chain.contains(nk as int));
                assert(nk != kk);
            } else {
                assert(subroot[kk as int] != subroot[i as int]);
            }
            assert(before[kk as int] == orig[kk as int]);
            assert(subroot[kk as int] == kk);
            rank = rank.update(kk as int, s + 1);
            chain = chain.insert(kk as int);
            s = s + 1;
        }
        let ghost t = s;
        let ghost lrank = Seq::new(n, |m: int| if chain.contains(m) { rank[m] } else { t + 1 + key[m] as nat });
        proof {
            assert forall|m: int| 0 <= m < n && subroot[m] == lake implies #[trigger] next@[m] != m && (next@[m] == i || (
                subroot[next@[m] as int] == lake && lrank[next@[m] as int] < lrank[m])) by {
                if !chain.contains(m) {
                    assert(next@[m] == orig[m]);
                    if orig[m] == m {
                        assert(subroot[m] == m);
                        assert(m == kk);
                    }
                    assert(subroot[orig[m] as int] == lake);
                }
            }
        }
        Ghost(lrank)
    }

    /// Phase C: carves every lake into outlet-rooted drainage. Sites are taken
    /// from a ridge queue, longest last edge first, starting at the outlets;
    /// when a taken site borders an undrained lake, the flow from the bordering
    /// site down to the lake bottom is reversed so that the lake drains into
    /// the taken site. Outlets stay self-loops, and where every site is linked
    /// to an outlet, every walk ends at an outlet.
    #[verifier::rlimit(100)]
    #[verifier::spinoff_prover]
    fn remove_lakes_from_stream_tree(
        next: &Vec<usize>,
        num: usize,
        graph: &SiteGraph,
        outlets: &[usize],
        subroot: &Vec<usize>,
        Ghost(key): Ghost<Seq<u64>>,
    ) -> (carved: Vec<usize>)
        requires
            next@.len() == num,
            in_range(next@),
            settles(next@),
            key.len() == num,
            forall|i: int| 0 <= i < num && #[trigger] next@[i] != i ==> key[next@[i] as int] < key[i],
            graph.wf(num as nat),
            symmetric(graph@),
            drains_along_edges(graph@, next@),
            subroot@ == Seq::new(num as nat, |i: int| terminal(next@, i) as usize),
            forall|k: int| 0 <= k < outlets@.len() ==> #[trigger] outlets@[k] < num,
            forall|k: int| 0 <= k < outlets@.len() ==> next@[#[trigger] outlets@[k] as int] == outlets@[k],
        ensures
            carved@.len() == num,
            in_range(carved@),
            forall|k: int| 0 <= k < outlets@.len() ==> carved@[#[trigger] outlets@[k] as int] == outlets@[k],
            drains_along_edges(graph@, carved@),
            all_linked(graph@, outlet_table(num as nat, outlets@)) ==> forall|x: int|
                0 <= x < num ==> #[trigger] reaches_outlet(carved@, outlet_table(num as nat, outlets@), x),
            forall|m: int| 0 <= m < num && outlet_table(num as nat, outlets@)[subroot@[m] as int] ==> #[trigger] carved@[m] == next@[m],
            one_exit_per_lake(subroot@, carved@),
            carved@ == carved_tree(next@, graph@, outlets@),
            forall|m: int| 0 <= m < num && !linked_somehow(graph@, outlet_table(num as nat, outlets@), m) ==> #[trigger] carved@[m] == next@[m],
            all_linked(graph@, outlet_table(num as nat, outlets@)) ==> forall|t: int|
                0 <= t < num && subroot@[t] == t && !outlet_table(num as nat, outlets@)[t] ==> #[trigger] has_exit(subroot@, carved@, t),
    {
        let ghost orig = next@;
        let ghost sub = subroot@;
        let ghost g = graph@;
        let ghost table = outlet_table(num as nat, outlets@);
        proof {
            assert forall|i: int| 0 <= i < num implies #[trigger] sub[i] < num && sub[sub[i] as int] == sub[i] by {
                lemma_walk_in_range(orig, i, num as nat);
                lemma_terminal_fixed(orig, i);
            }
            assert forall|i: int| 0 <= i < num implies #[trigger] sub[orig[i] as int] == sub[i] by {
                lemma_terminal_step(orig, i);
            }
            assert forall|i: int| 0 <= i < num && orig[i] == i implies #[trigger] sub[i] == i by {
                assert(walk(orig, i, 0) == i);
                lemma_walk_fixed(orig, i, 0, num as nat);
            }
            assert forall|o: int| 0 <= o < num && #[trigger] table[o] implies orig[o] == o by {
                let w = choose|w: int| 0 <= w < outlets@.len() && outlets@[w] == o as usize;
                assert(orig[outlets@[w] as int] == outlets@[w]);
            }
        }
        let mut root: Vec<Option<usize>> = Vec::new();
        let mut visited: Vec<bool> = Vec::new();
        let mut remaining: usize = 0;
        let mut i: usize = 0;
        while i < num
            invariant
                i <= num,
                root@.len() == i,
                visited@.len() == i,
                remaining == i,
                unvisited(visited@) == i,
                forall|m: int| 0 <= m < i ==> #[trigger] root@[m] is None,
                forall|m: int| 0 <= m < i ==> !#[trigger] visited@[m],
            decreases num - i,
        {
            proof {
                assert(visited@.push(false).drop_last() =~= visited@);
            }
            root.push(None);
            visited.push(false);
            remaining = remaining + 1;
            i = i + 1;
        }
        let mut ridges = RidgeQueue::new();
        proof {
            let z = seeds(outlets@.subrange(0, 0));
            assert(z =~= Seq::<RidgeElement>::empty());
            assert(z.to_multiset() =~= Multiset::<RidgeElement>::empty()) by {
                broadcast use vstd::multiset::group_multiset_axioms;
                vstd::seq_lib::to_multiset_len(z);
            }
        }
        let mut k: usize = 0;
        while k < outlets.len()
            invariant
                k <= outlets@.len(),
                root@.len() == num,
                sub == subroot@,
                table == outlet_table(num as nat, outlets@),
                num == orig.len(),
                lake_facts(orig, key, sub),
                forall|k: int| 0 <= k < outlets@.len() ==> #[trigger] outlets@[k] < num,
                forall|m: int| 0 <= m < k ==> #[trigger] root@[outlets@[m] as int] is Some,
                forall|m: int| 0 <= m < num && #[trigger] root@[m] is Some ==> table[m],
                forall|o: int| 0 <= o < num && #[trigger] table[o] ==> orig[o] == o,
                forall|m: int| 0 <= m < k ==> queued(ridges@, #[trigger] outlets@[m] as int),
                ridges.wf(),
                forall|e: RidgeElement| #[trigger] ridges@.count(e) > 0 ==> e.index < num && root@[sub[e.index as int] as int] is Some,
                root@ == Seq::new(num as nat, |m: int| if outlets@.subrange(0, k as int).contains(m as usize) { Some(m as usize) } else { None }),
                ridges@ == seeds(outlets@.subrange(0, k as int)).to_multiset(),
            decreases outlets@.len() - k,
        {
            let o = outlets[k];
            let ghost pre = outlets@.subrange(0, k as int);
            let ghost post = outlets@.subrange(0, k + 1);
            proof {
                assert(post =~= pre.push(o));
                assert(seeds(post) =~= seeds(pre).push(RidgeElement { index: o, dist: 0 }));
                to_multiset_build(seeds(pre), RidgeElement { index: o, dist: 0 });
            }
            proof {
                assert(outlets@[k as int] == o);
                assert(table[o as int]);
                assert(orig[o as int] == o);
            }
            let ghost root0 = root@;
            root.set(o, Some(o));
            proof {
                assert(sub[o as int] == o);
                assert forall|m: int| 0 <= m < num && root0[m] is Some implies #[trigger] root@[m] is Some by {}
            }
            let e = RidgeElement { index: o, dist: 0 };
            let ghost q1 = ridges@;
            ridges.push(e);
            proof {
                broadcast use vstd::multiset::group_multiset_axioms;
                assert(ridges@.count(e) > 0);
                assert forall|m: int| 0 <= m < k + 1 implies queued(ridges@, #[trigger] outlets@[m] as int) by {
                    if m < k {
                        let w = choose|w: RidgeElement| #[trigger] q1.count(w) > 0 && w.index == outlets@[m];
                        assert(ridges@.count(w) > 0);
                    }
                }
                assert(root@ =~= Seq::new(num as nat, |m: int| if post.contains(m as usize) { Some(m as usize) } else { None })) by {
                    assert forall|m: int| 0 <= m < num implies root@[m] == (if post.contains(m as usize) { Some(m as usize) } else { None }) by {
                        if pre.contains(m as usize) {
                            let w = choose|w: int| 0 <= w < pre.len() && pre[w] == m as usize;
                            assert(post[w] == m as usize);
                        }
                        if post.contains(m as usize) && m != o {
                            let w = choose|w: int| 0 <= w < post.len() && post[w] == m as usize;
                            assert(pre[w] == m as usize);
                        }
                        if m == o {
                            assert(post[k as int] == o);
                        }
                    }
                }
            }
            k = k + 1;
        }
        proof {
            assert(outlets@.subrange(0, outlets@.len() as int) =~= outlets@);
            assert(visited@ =~= Seq::new(num as nat, |m: int| false));
        }
        let ghost start = CarveState { next: orig, root: root@, visited: visited@, queue: ridges@ };
        assert(start == initial_state(orig, outlets@));
        let ghost mut rank: Seq<nat> = Seq::new(num as nat, |m: int| key[m] as nat);
        proof {
            assert forall|o: int| 0 <= o < num && #[trigger] table[o] implies root@[o] is Some && queued(ridges@, o) by {
                let w = choose|w: int| 0 <= w < outlets@.len() && outlets@[w] == o as usize;
                assert(root@[outlets@[w] as int] is Some);
                assert(queued(ridges@, outlets@[w] as int));
            }
        }
        let mut next = next.clone();
        while !ridges.is_empty()
            invariant
                carving_state(orig, key, sub, g, table, next@, root@, rank, visited@),
                sub == subroot@,
                g == graph@,
                graph.wf(num as nat),
                num == orig.len(),
                table == outlet_table(num as nat, outlets@),
                remaining == unvisited(visited@),
                ridges.wf(),
                forall|e: RidgeElement| #[trigger] ridges@.count(e) > 0 ==> e.index < num && root@[sub[e.index as int] as int] is Some,
                forall|v: int, k: int| 0 <= v < num && visited@[v] && 0 <= k < g[v].len() ==> visited@[#[trigger] g[v][k].0 as int] || queued(ridges@, g[v][k].0 as int),
                forall|o: int| 0 <= o < num && #[trigger] table[o] ==> visited@[o] || queued(ridges@, o),
                run(CarveState { next: next@, root: root@, visited: visited@, queue: ridges@ }, sub, g) == run(start, sub, g),
            decreases remaining, ridges@.len(),
        {
            let ghost q0 = ridges@;
            let ghost st0 = CarveState { next: next@, root: root@, visited: visited@, queue: ridges@ };
            let element = ridges.pop().unwrap();
            let i = element.index;
            let ghost popped = CarveState { next: next@, root: root@, visited: visited@, queue: ridges@ };
            proof {
                assert(element == ridge_max(q0));
                assert(popped == CarveState { next: st0.next, root: st0.root, visited: st0.visited, queue: st0.queue.remove(element) });
            }
            proof {
                broadcast use vstd::multiset::group_multiset_axioms;
                assert(q0.count(element) > 0);
                assert forall|w: int| queued(q0, w) implies queued(ridges@, w) || w == i by {
                    let e = choose|e: RidgeElement| #[trigger] q0.count(e) > 0 && e.index == w;
                    if e != element {
                        assert(ridges@.count(e) == q0.count(e));
                    }
                }
            }
            assert(i < num);
            if !visited[i] {
                let nbrs = &graph.neighbors[i];
                assert(nbrs@ == graph@[i as int]);
                let mut k: usize = 0;
                while k < nbrs.len()
                    invariant
                        carving_state(orig, key, sub, g, table, next@, root@, rank, visited@),
                        sub == subroot@,
                        g == graph@,
                        graph.wf(num as nat),
                        num == orig.len(),
                        i < num,
                        !visited@[i as int],
                        root@[sub[i as int] as int] is Some,
                        nbrs@ == g[i as int],
                        k <= nbrs@.len(),
                        ridges.wf(),
                        forall|e: RidgeElement| #[trigger] ridges@.count(e) > 0 ==> e.index < num && root@[sub[e.index as int] as int] is Some,
                        forall|v: int, k: int| 0 <= v < num && visited@[v] && 0 <= k < g[v].len() ==> visited@[#[trigger] g[v][k].0 as int] || queued(ridges@, g[v][k].0 as int) || g[v][k].0 == i,
                        forall|o: int| 0 <= o < num && #[trigger] table[o] ==> visited@[o] || queued(ridges@, o) || o == i,
                        forall|m: int| 0 <= m < k ==> visited@[#[trigger] g[i as int][m].0 as int] || queued(ridges@, g[i as int][m].0 as int),
                        visited@ == st0.visited,
                        scan(CarveState { next: next@, root: root@, visited: visited@, queue: ridges@ }, sub, i as int, g[i as int], k as int)
                            == scan(popped, sub, i as int, g[i as int], 0),
                    decreases nbrs@.len() - k,
                {
                    let ghost cur = CarveState { next: next@, root: root@, visited: visited@, queue: ridges@ };
                    let j = nbrs[k].0;
                    assert(nbrs@[k as int] == g[i as int][k as int]);
                    if !visited[j] {
                        let lake = subroot[j];
                        if root[lake].is_none() {
                            proof {
                                assert(adjacent(g, i as int, j as int));
                                assert forall|m: int| 0 <= m < num && sub[m] == sub[j as int] implies #[trigger] next@[m] == orig[m] by {
                                    assert(root@[sub[m] as int] is None);
                                }
                            }
                            let ghost before = next@;
                            let lrank = Self::carve(&mut next, j, i, Ghost(orig), Ghost(key), Ghost(sub), Ghost(g));
                            let drained = root[subroot[i]];
                            let ghost root0 = root@;
                            root.set(lake, drained);
                            proof {
                                let base = rank[i as int];
                                let r2 = Seq::new(num as nat, |m: int| if sub[m] == lake { base + 1 + lrank@[m] } else { rank[m] });
                                lemma_carve_keeps_state(orig, key, sub, g, table, before, next@, root0, root@, rank, r2, visited@, lrank@, i as int, j as int, lake as int);
                                rank = r2;
                            }
                        }
                        let e = RidgeElement { index: j, dist: nbrs[k].1 };
                        let ghost q1 = ridges@;
                        ridges.push(e);
                        proof {
                            broadcast use vstd::multiset::group_multiset_axioms;
                            assert(ridges@.count(e) > 0);
                            assert forall|w: int| queued(q1, w) implies #[trigger] queued(ridges@, w) by {
                                let x = choose|x: RidgeElement| #[trigger] q1.count(x) > 0 && x.index == w;
                                assert(ridges@.count(x) > 0);
                            }
                            assert(queued(ridges@, j as int));
                        }
                    }
                    proof {
                        let nxt = CarveState { next: next@, root: root@, visited: visited@, queue: ridges@ };
                        assert(scan(cur, sub, i as int, g[i as int], k as int) == scan(nxt, sub, i as int, g[i as int], k + 1));
                    }
                    k = k + 1;
                }
                let ghost s1 = CarveState { next: next@, root: root@, visited: visited@, queue: ridges@ };
                assert(s1 == scan(popped, sub, i as int, g[i as int], 0));
                let r = root[subroot[i]];
                let ghost root0 = root@;
                root.set(i, r);
                proof {
                    if sub[i as int] == i as int {
                        assert(root@ =~= root0);
                    } else {
                        assert forall|m: int| 0 <= m < num implies #[trigger] root@[sub[m] as int] == root0[sub[m] as int] by {
                            if sub[m] == i {
                                assert(sub[sub[m] as int] == sub[m]);
                            }
                        }
                    }
                    lemma_unvisited_visit(visited@, i as int);
                }
                visited.set(i, true);
                remaining = remaining - 1;
                proof {
                    let st1 = CarveState { next: next@, root: root@, visited: visited@, queue: ridges@ };
                    assert(st1 == step(st0, sub, g));
                    assert(unvisited(st1.visited) < unvisited(st0.visited));
                    assert(run(st0, sub, g) == run(st1, sub, g));
                }
                proof {
                    assert forall|v: int, k: int| 0 <= v < num && visited@[v] && 0 <= k < g[v].len() implies visited@[#[trigger] g[v][k].0 as int] || queued(ridges@, g[v][k].0 as int) by {
                        if v == i {
                        }
                    }
                }
            } else {
                proof {
                    assert(popped == step(st0, sub, g));
                    assert(popped.queue.len() < st0.queue.len());
                    assert(run(st0, sub, g) == run(popped, sub, g));
                }
            }
        }
        proof {
            assert(ridges@.len() == 0);
            assert(next@ == run(start, sub, g));
            assert(sub =~= lakes_of(orig));
            assert forall|m: int| 0 <= m < num && !linked_somehow(g, table, m) implies #[trigger] next@[m] == orig[m] by {
                if drained(root@, sub, m) {
                    lemma_drained_linked(g, table, next@, root@, sub, rank, m);
                }
            }
            assert forall|v: int, k: int| 0 <= v < num && visited@[v] && 0 <= k < g[v].len() implies #[trigger] visited@[g[v][k].0 as int] by {
                if !visited@[g[v][k].0 as int] {
                    let e = choose|e: RidgeElement| #[trigger] ridges@.count(e) > 0 && e.index == g[v][k].0;
                }
            }
            assert forall|o: int| 0 <= o < num && #[trigger] table[o] implies visited@[o] by {
                if !visited@[o] {
                    let e = choose|e: RidgeElement| #[trigger] ridges@.count(e) > 0 && e.index == o;
                }
            }
            if all_linked(g, table) {
                assert forall|t: int| 0 <= t < num && sub[t] == t && !table[t] implies #[trigger] has_exit(sub, next@, t) by {
                    assert(linked_somehow(g, table, t));
                    let path = choose|path: Seq<int>| #[trigger] path_to_outlet(g, table, t, path);
                    lemma_path_visited(g, table, visited@, t, path, 0);
                    assert(root@[t] is Some);
                }
                assert forall|x: int| 0 <= x < num implies #[trigger] reaches_outlet(next@, table, x) by {
                    assert(linked_somehow(g, table, x));
                    let path = choose|path: Seq<int>| #[trigger] path_to_outlet(g, table, x, path);
                    lemma_path_visited(g, table, visited@, x, path, 0);
                    lemma_rank_reaches(next@, root@, sub, rank, table, x);
                    assert(table[walk(next@, x, rank[x])]);
                }
            }
            assert forall|k: int| 0 <= k < outlets@.len() implies next@[#[trigger] outlets@[k] as int] == outlets@[k] by {
                assert(table[outlets@[k] as int]);
            }
        }
        next
    }

    /// Builds the stream tree of the given elevations: the steepest-descent
    /// tree, with every lake carved into drainage towards an outlet.
    ///
    /// `elevation[i]` is the order key of site `i`'s elevation and
    /// `slopes[i][k]` that of the downhill slope from `i` to its `k`-th neighbor
    /// (`0` where the neighbor is not lower).
    pub fn construct<S>(
        sites: &[S],
        elevation: &Vec<u64>,
        slopes: &Vec<Vec<u64>>,
        graph: &SiteGraph,
        outlets: &[usize],
    ) -> (r: Result<StreamTree, TreeError>)
        requires
            elevation@.len() == sites@.len(),
            graph.wf(sites@.len() as nat),
            symmetric(graph@),
            slopes@.len() == sites@.len(),
            forall|i: int| 0 <= i < sites@.len() ==> (#[trigger] slopes@[i])@.len() == graph@[i].len(),
            forall|k: int| 0 <= k < outlets@.len() ==> #[trigger] outlets@[k] < sites@.len(),
        ensures
            ({
                let is_outlet = outlet_table(sites@.len() as nat, outlets@);
                let initial = steepest_tree(
                    elevation@,
                    Seq::new(sites@.len() as nat, |i: int| slopes@[i]@),
                    graph@,
                    is_outlet,
                );
                &&& r is Ok ==> is_stream_forest(r->Ok_0.next@, is_outlet)
                &&& r is Ok ==> drains_along_edges(graph@, r->Ok_0.next@)
                &&& !has_lake(initial, is_outlet) ==> r is Ok && r->Ok_0.next@ == initial
                &&& all_linked(graph@, is_outlet) ==> r is Ok
                &&& r is Ok ==> r->Ok_0.next@ == (if has_lake(initial, is_outlet) {
                    carved_tree(initial, graph@, outlets@)
                } else {
                    initial
                })
                &&& r is Ok ==> forall|i: int|
                    0 <= i < sites@.len() && is_outlet[terminal(initial, i)] ==> #[trigger] r->Ok_0.next@[i] == initial[i]
                &&& r is Ok ==> one_exit_per_lake(lakes_of(initial), r->Ok_0.next@)
                &&& r is Ok && all_linked(graph@, is_outlet) ==> forall|t: int|
                    0 <= t < sites@.len() && initial[t] == t && !is_outlet[t] ==> #[trigger] has_exit(
                        lakes_of(initial),
                        r->Ok_0.next@,
                        t,
                    )
            }),
    {
        let num = sites.len();
        let is_outlet = Self::create_outlet_table(sites, outlets);
        let next = Self::construct_initial_stream_tree(num, elevation, slopes, graph, &is_outlet);
        proof {
            lemma_descending_settles(next@, elevation@);
        }
        let (subroot, lake_found) = Self::find_roots_with_lakes(num, is_outlet.as_slice(), next.as_slice());
        let ghost lakes = lakes_of(next@);
        assert(subroot@ =~= lakes);
        proof {
            assert forall|t: int| 0 <= t < num && next@[t] == t implies #[trigger] lakes[t] == t by {
                assert(walk(next@, t, 0) == t);
                lemma_walk_fixed(next@, t, 0, num as nat);
            }
        }
        if !lake_found {
            proof {
                assert forall|t: int, k1: int, k2: int|
                    0 <= k1 < num && 0 <= k2 < num && #[trigger] exits(lakes, next@, t, k1) && #[trigger] exits(lakes, next@, t, k2)
                    implies k1 == k2 by {
                    lemma_terminal_step(next@, k1);
                }
                assert forall|t: int| 0 <= t < num && next@[t] == t && !is_outlet@[t] implies #[trigger] has_exit(lakes, next@, t) by {
                    assert(lakes[t] == t);
                    assert(is_outlet@[terminal(next@, t)]);
                }
            }
            return Ok(StreamTree { next });
        }
        proof {
            assert forall|k: int| 0 <= k < outlets@.len() implies next@[#[trigger] outlets@[k] as int] == outlets@[k] by {
                assert(is_outlet@[outlets@[k] as int]);
            }
        }
        let next = Self::remove_lakes_from_stream_tree(&next, num, graph, outlets, &subroot, Ghost(elevation@));
        let order = upstream_order(outlets, &next, graph);
        proof {
            let table = outlet_table(num as nat, outlets@);
            if all_linked(graph@, table) {
                assert forall|x: usize| x < num implies #[trigger] order@.contains(x) by {
                    assert(reaches_outlet(next@, table, x as int));
                    let d = choose|d: nat| #[trigger] table[walk(next@, x as int, d)];
                    let w = walk(next@, x as int, d);
                    lemma_walk_in_range(next@, x as int, d);
                    let q = choose|q: int| 0 <= q < outlets@.len() && outlets@[q] == w as usize;
                    assert(next@[outlets@[q] as int] == outlets@[q]);
                    assert(reaches_root(next@, outlets@, x as int, d));
                }
                lemma_distinct_indices(order@, num as int);
            }
        }
        if order.len() != num {
            return Err(TreeError::Unreachable);
        }
        proof {
            let table = outlet_table(num as nat, outlets@);
            lemma_distinct_indices(order@, num as int);
            assert forall|o: int| 0 <= o < num && #[trigger] table[o] implies next@[o] == o by {
                let w = choose|w: int| 0 <= w < outlets@.len() && outlets@[w] == o as usize;
                assert(next@[outlets@[w] as int] == outlets@[w]);
            }
            assert forall|i: int| 0 <= i < num implies #[trigger] table[terminal(next@, i)] by {
                assert(order@.contains(i as usize));
                let p = choose|p: int| 0 <= p < order@.len() && order@[p] == i as usize;
                let w = walk(next@, order@[p] as int, p as nat);
                assert(outlets@.contains(w as usize) && next@[w] == w);
                lemma_walk_fixed(next@, i, p as nat, num as nat);
                lemma_walk_in_range(next@, i, num as nat);
            }
        }
        Ok(StreamTree { next })
    }
}

} // verus!
