//! Orderings of the sites of a drainage basin.
use vstd::prelude::*;
use crate::forest::{in_range, walk, lemma_distinct_indices, lemma_walk_fixed, lemma_walk_in_range};
use crate::stream_tree::{adjacent, drains_along_edges, symmetric, SiteGraph, StreamTree};

verus! {

/// Every site of `order` drains through sites listed before it: it is a
/// self-loop, or the site it drains into stands earlier in `order`.
pub open spec fn is_upstream_order(next: Seq<usize>, order: Seq<usize>) -> bool {
    forall|p: int|
        0 <= p < order.len() ==> next[order[p] as int] == order[p] || exists|q: int|
            0 <= q < p && #[trigger] order[q] == next[order[p] as int]
}

/// Every site of `order` reaches, within as many steps as its position, a
/// self-loop among `roots`.
pub open spec fn drains_to(next: Seq<usize>, order: Seq<usize>, roots: Seq<usize>) -> bool {
    forall|p: int|
        0 <= p < order.len() ==> roots.contains(#[trigger] walk(next, order[p] as int, p as nat) as usize)
            && next[walk(next, order[p] as int, p as nat)] == walk(next, order[p] as int, p as nat)
}

/// Every site that drains into one of the first `h` sites of `order` along an
/// edge is listed in `order`.
pub open spec fn closed_upto(next: Seq<usize>, g: Seq<Seq<(usize, u64)>>, order: Seq<usize>, h: int) -> bool {
    forall|p: int, c: int|
        0 <= p < h && 0 <= c < next.len() && next[c] == order[p] && c != order[p] && #[trigger] adjacent(
            g,
            order[p] as int,
            c,
        ) ==> order.contains(c as usize)
}

/// The walk from `x` stands, after `d` steps, on a self-loop among `roots`.
pub open spec fn reaches_root(next: Seq<usize>, roots: Seq<usize>, x: int, d: nat) -> bool {
    roots.contains(walk(next, x, d) as usize) && next[walk(next, x, d)] == walk(next, x, d)
}

proof fn lemma_push_contains(s: Seq<usize>, a: usize)
    ensures
        forall|y: usize| s.contains(y) ==> #[trigger] s.push(a).contains(y),
        s.push(a).contains(a),
{
    assert forall|y: usize| s.contains(y) implies #[trigger] s.push(a).contains(y) by {
        let w = choose|w: int| 0 <= w < s.len() && s[w] == y;
        assert(s.push(a)[w] == y);
    }
    assert(s.push(a)[s.len() as int] == a);
}

proof fn lemma_order_complete(
    next: Seq<usize>,
    g: Seq<Seq<(usize, u64)>>,
    order: Seq<usize>,
    roots: Seq<usize>,
    x: int,
    d: nat,
)
    requires
        in_range(next),
        g.len() == next.len(),
        symmetric(g),
        drains_along_edges(g, next),
        closed_upto(next, g, order, order.len() as int),
        forall|r: int| 0 <= r < roots.len() && next[roots[r] as int] == roots[r] ==> order.contains(#[trigger] roots[r]),
        0 <= x < next.len(),
        reaches_root(next, roots, x, d),
    ensures
        order.contains(x as usize),
    decreases d,
{
    if d == 0 {
        let r = choose|r: int| 0 <= r < roots.len() && roots[r] == x as usize;
        assert(next[roots[r] as int] == roots[r]);
    } else {
        let y = next[x] as int;
        assert(walk(next, x, d) == walk(next, y, (d - 1) as nat));
        lemma_order_complete(next, g, order, roots, y, (d - 1) as nat);
        if y != x {
            assert(adjacent(g, x, y));
            assert(adjacent(g, y, x));
            let p = choose|p: int| 0 <= p < order.len() && order[p] == y as usize;
            assert(adjacent(g, order[p] as int, x));
        }
    }
}

/// The sites that drain into the given roots, breadth first from the roots
/// over the sites that drain into an already listed one. A root that is not
/// a self-loop of `next` is left out.
pub fn upstream_order(roots: &[usize], next: &Vec<usize>, graph: &SiteGraph) -> (order: Vec<usize>)
    requires
        in_range(next@),
        graph.wf(next@.len()),
        forall|k: int| 0 <= k < roots@.len() ==> #[trigger] roots@[k] < next@.len(),
        symmetric(graph@),
        drains_along_edges(graph@, next@),
    ensures
        order@.no_duplicates(),
        forall|x: int, d: nat| 0 <= x < next@.len() && #[trigger] reaches_root(next@, roots@, x, d) ==> order@.contains(x as usize),
        forall|p: int| 0 <= p < order@.len() ==> #[trigger] order@[p] < next@.len(),
        is_upstream_order(next@, order@),
        drains_to(next@, order@, roots@),
        roots@.len() > 0 && next@[roots@[0] as int] == roots@[0] ==> order@.len() > 0 && order@[0] == roots@[0],
{
    let n = next.len();
    let mut marked: Vec<bool> = Vec::new();
    let mut i: usize = 0;
    while i < n
        invariant
            i <= n,
            marked@.len() == i,
            forall|m: int| 0 <= m < i ==> !#[trigger] marked@[m],
        decreases n - i,
    {
        marked.push(false);
        i = i + 1;
    }
    let mut order: Vec<usize> = Vec::new();
    let mut r: usize = 0;
    while r < roots.len()
        invariant
            n == next@.len(),
            in_range(next@),
            r <= roots@.len(),
            forall|k: int| 0 <= k < roots@.len() ==> #[trigger] roots@[k] < n,
            marked@.len() == n,
            forall|x: int| 0 <= x < n ==> (#[trigger] marked@[x] <==> order@.contains(x as usize)),
            order@.no_duplicates(),
            forall|p: int| 0 <= p < order@.len() ==> #[trigger] order@[p] < n,
            forall|p: int| 0 <= p < order@.len() ==> next@[#[trigger] order@[p] as int] == order@[p],
            forall|p: int| 0 <= p < order@.len() ==> roots@.contains(#[trigger] order@[p]),
            r > 0 && next@[roots@[0] as int] == roots@[0] ==> order@.len() > 0 && order@[0] == roots@[0],
            order@.len() <= r,
            forall|q: int| 0 <= q < r && next@[roots@[q] as int] == roots@[q] ==> order@.contains(#[trigger] roots@[q]),
        decreases roots@.len() - r,
    {
        let o = roots[r];
        proof {
            assert(roots@[r as int] == o);
        }
        if next[o] == o && !marked[o] {
            let ghost before = order@;
            proof {
                lemma_push_contains(before, o);
            }
            assert(!before.contains(o));
            marked.set(o, true);
            order.push(o);
            proof {
                assert(roots@[r as int] == o);
                lemma_pushed_fresh(before, order@, marked@, o, n as int);
            }
        }
        r = r + 1;
    }
    let ghost head = order@;
    proof {
        lemma_distinct_indices(order@, n as int);
        assert forall|p: int| 0 <= p < order@.len() implies roots@.contains(#[trigger] walk(next@, order@[p] as int, p as nat) as usize)
            && next@[walk(next@, order@[p] as int, p as nat)] == walk(next@, order@[p] as int, p as nat) by {
            let x = order@[p] as int;
            assert(walk(next@, x, 0) == x);
            lemma_walk_fixed(next@, x, 0, p as nat);
        }
    }
    let mut h: usize = 0;
    while h < order.len()
        invariant
            n == next@.len(),
            in_range(next@),
            graph.wf(n as nat),
            marked@.len() == n,
            forall|x: int| 0 <= x < n ==> (#[trigger] marked@[x] <==> order@.contains(x as usize)),
            order@.no_duplicates(),
            forall|p: int| 0 <= p < order@.len() ==> #[trigger] order@[p] < n,
            order@.len() <= n,
            h <= order@.len(),
            is_upstream_order(next@, order@),
            drains_to(next@, order@, roots@),
            head.len() > 0 ==> order@.len() > 0 && order@[0] == head[0],
            roots@.len() > 0 && next@[roots@[0] as int] == roots@[0] ==> head.len() > 0 && head[0] == roots@[0],
            closed_upto(next@, graph@, order@, h as int),
            forall|q: int| 0 <= q < roots@.len() && next@[roots@[q] as int] == roots@[q] ==> order@.contains(#[trigger] roots@[q]),
        decreases n - h,
    {
        let v = order[h];
        let nbrs = &graph.neighbors[v];
        assert(nbrs@ == graph@[v as int]);
        let mut k: usize = 0;
        while k < nbrs.len()
            invariant
                n == next@.len(),
                in_range(next@),
                graph.wf(n as nat),
                v < n,
                nbrs@ == graph@[v as int],
                k <= nbrs@.len(),
                h < order@.len(),
                order@[h as int] == v,
                marked@.len() == n,
                forall|x: int| 0 <= x < n ==> (#[trigger] marked@[x] <==> order@.contains(x as usize)),
                order@.no_duplicates(),
                forall|p: int| 0 <= p < order@.len() ==> #[trigger] order@[p] < n,
                order@.len() <= n,
                is_upstream_order(next@, order@),
                drains_to(next@, order@, roots@),
                head.len() > 0 ==> order@.len() > 0 && order@[0] == head[0],
                closed_upto(next@, graph@, order@, h as int),
                forall|q: int| 0 <= q < roots@.len() && next@[roots@[q] as int] == roots@[q] ==> order@.contains(#[trigger] roots@[q]),
                forall|m: int| 0 <= m < k && next@[nbrs@[m].0 as int] == v && #[trigger] nbrs@[m].0 != v ==> order@.contains(nbrs@[m].0),
            decreases nbrs@.len() - k,
        {
            let c = nbrs[k].0;
            assert(nbrs@[k as int] == graph@[v as int][k as int]);
            if next[c] == v && c != v && !marked[c] {
                let ghost before = order@;
                proof {
                    lemma_push_contains(before, c);
                }
                assert(!before.contains(c));
                assert(drains_to(next@, before, roots@));
                let ghost hi: int = h as int;
                assert(0 <= hi < before.len());
                let ghost hv = walk(next@, before[hi] as int, hi as nat);
                assert(roots@.contains(hv as usize) && next@[hv] == hv);
                marked.set(c, true);
                order.push(c);
                proof {
                    lemma_pushed_fresh(before, order@, marked@, c, n as int);
                    lemma_distinct_indices(order@, n as int);
                    let p = before.len() as int;
                    assert forall|q: int| 0 <= q < order@.len() implies next@[order@[q] as int] == order@[q]
                        || exists|q2: int| 0 <= q2 < q && #[trigger] order@[q2] == next@[order@[q] as int] by {
                        if q < p {
                            assert(order@[q] == before[q]);
                            if next@[order@[q] as int] != order@[q] {
                                let q2 = choose|q2: int| 0 <= q2 < q && #[trigger] before[q2] == next@[before[q] as int];
                                assert(order@[q2] == before[q2]);
                            }
                        } else {
                            assert(order@[h as int] == next@[order@[q] as int]);
                        }
                    }
                    assert forall|q: int| 0 <= q < order@.len() implies roots@.contains(#[trigger] walk(next@, order@[q] as int, q as nat) as usize)
                        && next@[walk(next@, order@[q] as int, q as nat)] == walk(next@, order@[q] as int, q as nat) by {
                        if q < p {
                            assert(order@[q] == before[q]);
                            let w = walk(next@, before[q] as int, q as nat);
                            assert(roots@.contains(w as usize));
                        } else {
                            assert(order@[q] == c);
                            lemma_walk_fixed(next@, v as int, h as nat, (q - 1) as nat);
                            assert(walk(next@, c as int, q as nat) == walk(next@, v as int, (q - 1) as nat));
                        }
                    }
                }
            }
            proof {
                if next@[c as int] == v && c != v {
                    assert(order@.contains(c)) by {
                        if !marked@[c as int] {
                        }
                    }
                }
                assert(nbrs@[k as int].0 == c);
            }
            k = k + 1;
        }
        proof {
            assert forall|p: int, c: int|
                0 <= p < h + 1 && 0 <= c < n && next@[c] == order@[p] && c != order@[p] && #[trigger] adjacent(
                    graph@,
                    order@[p] as int,
                    c,
                ) implies order@.contains(c as usize) by {
                if p == h {
                    let m = choose|m: int| 0 <= m < graph@[v as int].len() && #[trigger] graph@[v as int][m].0 == c;
                    assert(nbrs@[m].0 == c);
                }
            }
        }
        h = h + 1;
    }
    proof {
        assert forall|x: int, d: nat| 0 <= x < n && #[trigger] reaches_root(next@, roots@, x, d) implies order@.contains(x as usize) by {
            lemma_order_complete(next@, graph@, order@, roots@, x, d);
        }
    }
    order
}

proof fn lemma_pushed_fresh(before: Seq<usize>, after: Seq<usize>, marked: Seq<bool>, c: usize, n: int)
    requires
        after == before.push(c),
        0 <= c < n,
        marked.len() == n,
        before.no_duplicates(),
        marked[c as int],
        forall|x: int| 0 <= x < n && x != c ==> (#[trigger] marked[x] <==> before.contains(x as usize)),
        !before.contains(c),
        n <= usize::MAX,
    ensures
        after.no_duplicates(),
        forall|x: int| 0 <= x < n ==> (#[trigger] marked[x] <==> after.contains(x as usize)),
{
    assert forall|a: int, b: int| 0 <= a < after.len() && 0 <= b < after.len() && a != b implies after[a]
        != after[b] by {
        if a == before.len() && b < before.len() {
            assert(before[b] == after[b]);
        }
        if b == before.len() && a < before.len() {
            assert(before[a] == after[a]);
        }
    }
    assert forall|x: int| 0 <= x < n implies (#[trigger] marked[x] <==> after.contains(x as usize)) by {
        if x != c {
            if after.contains(x as usize) {
                let w = choose|w: int| 0 <= w < after.len() && after[w] == x as usize;
                assert(after[before.len() as int] == c);
                if w == before.len() {
                    assert(x as usize == c);
                    assert(false);
                }
                assert(before[w] == x as usize);
            }
            if before.contains(x as usize) {
                let w = choose|w: int| 0 <= w < before.len() && before[w] == x as usize;
                assert(after[w] == x as usize);
            }
        } else {
            assert(after[before.len() as int] == c);
        }
    }
}

/// The sites of one outlet's basin in upstream order (each after the site it
/// drains into) and, reversed, in downstream order.
pub struct DrainageBasin {
    pub outlet: usize,
    pub upstream: Vec<usize>,
}

impl DrainageBasin {
    /// The basin of `outlet` in the stream tree: the outlet first, then every
    /// site listed after the site it drains into.
    pub fn construct(outlet: usize, stream_tree: &StreamTree, graph: &SiteGraph) -> (b: DrainageBasin)
        requires
            in_range(stream_tree.next@),
            graph.wf(stream_tree.next@.len()),
            symmetric(graph@),
            drains_along_edges(graph@, stream_tree.next@),
            outlet < stream_tree.next@.len(),
        ensures
            b.outlet == outlet,
            b.upstream@.no_duplicates(),
            forall|p: int| 0 <= p < b.upstream@.len() ==> #[trigger] b.upstream@[p] < stream_tree.next@.len(),
            is_upstream_order(stream_tree.next@, b.upstream@),
            forall|p: int| 0 <= p < b.upstream@.len() ==> #[trigger] walk(stream_tree.next@, b.upstream@[p] as int, p as nat) == outlet,
            stream_tree.next@[outlet as int] == outlet ==> b.upstream@.len() > 0 && b.upstream@[0] == outlet,
            stream_tree.next@[outlet as int] == outlet ==> forall|x: int, d: nat|
                0 <= x < stream_tree.next@.len() && #[trigger] walk(stream_tree.next@, x, d) == outlet
                    ==> b.upstream@.contains(x as usize),
    {
        let roots: Vec<usize> = vec![outlet];
        let upstream = upstream_order(roots.as_slice(), &stream_tree.next, graph);
        proof {
            if stream_tree.next@[outlet as int] == outlet {
                assert forall|x: int, d: nat| 0 <= x < stream_tree.next@.len() && #[trigger] walk(stream_tree.next@, x, d) == outlet
                    implies upstream@.contains(x as usize) by {
                    assert(roots@[0] == outlet);
                    assert(reaches_root(stream_tree.next@, roots@, x, d));
                }
            }
            assert forall|p: int| 0 <= p < upstream@.len() implies #[trigger] walk(stream_tree.next@, upstream@[p] as int, p as nat) == outlet by {
                let w = walk(stream_tree.next@, upstream@[p] as int, p as nat);
                assert(roots@.contains(w as usize));
            }
        }
        DrainageBasin { outlet, upstream }
    }

    /// The sites of the basin, each after every site that drains into it.
    pub fn downstream(&self) -> (r: Vec<usize>)
        ensures
            r@ == self.upstream@.reverse(),
    {
        let mut r: Vec<usize> = Vec::new();
        let mut k: usize = self.upstream.len();
        while k > 0
            invariant
                k <= self.upstream@.len(),
                r@ == self.upstream@.subrange(k as int, self.upstream@.len() as int).reverse(),
            decreases k,
        {
            k = k - 1;
            r.push(self.upstream[k]);
            assert(self.upstream@.subrange(k as int, self.upstream@.len() as int).reverse() =~= self.upstream@.subrange(k + 1, self.upstream@.len() as int).reverse().push(self.upstream@[k as int]));
        }
        assert(self.upstream@.subrange(0, self.upstream@.len() as int) == self.upstream@);
        r
    }
}

} // verus!
