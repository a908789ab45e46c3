//! Walks along a stream tree and the facts about them that the rest relies on.
use vstd::prelude::*;
use vstd::set_lib::*;

verus! {

/// The site reached from `i` after `k` steps along `next`.
pub open spec fn walk(next: Seq<usize>, i: int, k: nat) -> int
    decreases k,
{
    if k == 0 {
        i
    } else {
        walk(next, next[i] as int, (k - 1) as nat)
    }
}

/// The site reached from `i` after as many steps as there are sites.
pub open spec fn terminal(next: Seq<usize>, i: int) -> int {
    walk(next, i, next.len())
}

/// For each site, where its walk ends: an outlet or the bottom of its lake.
pub open spec fn lakes_of(next: Seq<usize>) -> Seq<usize> {
    Seq::new(next.len(), |i: int| terminal(next, i) as usize)
}

/// Every entry of `next` names a site.
pub open spec fn in_range(next: Seq<usize>) -> bool {
    forall|i: int| 0 <= i < next.len() ==> #[trigger] next[i] < next.len()
}

/// Every walk along `next` stands on a self-loop after `next.len()` steps.
pub open spec fn settles(next: Seq<usize>) -> bool {
    forall|i: int| 0 <= i < next.len() ==> next[terminal(next, i)] == terminal(next, i)
}

/// `t[i]` holds exactly when `i` is listed in `outlets`.
pub open spec fn outlet_table(n: nat, outlets: Seq<usize>) -> Seq<bool> {
    Seq::new(n, |i: int| outlets.contains(i as usize))
}

/// A stream forest rooted at the outlets: outlets are self-loops and every walk
/// of at most `next.len()` steps ends at an outlet.
pub open spec fn is_stream_forest(next: Seq<usize>, is_outlet: Seq<bool>) -> bool {
    &&& is_outlet.len() == next.len()
    &&& in_range(next)
    &&& forall|o: int| 0 <= o < next.len() && #[trigger] is_outlet[o] ==> next[o] == o
    &&& forall|i: int| 0 <= i < next.len() ==> #[trigger] is_outlet[terminal(next, i)]
}

pub proof fn lemma_walk_in_range(next: Seq<usize>, i: int, k: nat)
    requires
        in_range(next),
        0 <= i < next.len(),
    ensures
        0 <= walk(next, i, k) < next.len(),
    decreases k,
{
    if k > 0 {
        lemma_walk_in_range(next, next[i] as int, (k - 1) as nat);
    }
}

/// One more step is one step from where the walk stands.
pub proof fn lemma_walk_step(next: Seq<usize>, i: int, k: nat)
    ensures
        walk(next, i, k + 1) == next[walk(next, i, k)] as int,
    decreases k,
{
    if k > 0 {
        lemma_walk_step(next, next[i] as int, (k - 1) as nat);
        assert(((k - 1) as nat + 1) as nat == k);
    } else {
        assert(walk(next, next[i] as int, 0) == next[i] as int);
    }
}

pub proof fn lemma_walk_add(next: Seq<usize>, i: int, a: nat, b: nat)
    ensures
        walk(next, i, a + b) == walk(next, walk(next, i, a), b),
    decreases a,
{
    if a > 0 {
        lemma_walk_add(next, next[i] as int, (a - 1) as nat, b);
        assert((a + b - 1) as nat == ((a - 1) as nat + b) as nat);
    }
}

/// A walk that stands on a self-loop stays there.
pub proof fn lemma_walk_fixed(next: Seq<usize>, i: int, a: nat, b: nat)
    requires
        next[walk(next, i, a)] == walk(next, i, a),
        a <= b,
    ensures
        walk(next, i, b) == walk(next, i, a),
    decreases b - a,
{
    if a < b {
        lemma_walk_fixed(next, i, a, (b - 1) as nat);
        lemma_walk_step(next, i, (b - 1) as nat);
    }
}

/// Where a walk ends is a self-loop, and the walk from there ends there too.
pub proof fn lemma_terminal_fixed(next: Seq<usize>, i: int)
    requires
        in_range(next),
        settles(next),
        0 <= i < next.len(),
    ensures
        next[terminal(next, i)] == terminal(next, i),
        terminal(next, terminal(next, i)) == terminal(next, i),
{
    let t = terminal(next, i);
    lemma_walk_in_range(next, i, next.len());
    assert(walk(next, t, 0) == t);
    lemma_walk_fixed(next, t, 0, next.len());
}

/// A site and the site it drains into end their walks at the same place.
pub proof fn lemma_terminal_step(next: Seq<usize>, i: int)
    requires
        in_range(next),
        settles(next),
        0 <= i < next.len(),
    ensures
        terminal(next, next[i] as int) == terminal(next, i),
{
    let n = next.len();
    lemma_walk_step(next, i, n);
    assert(next[terminal(next, i)] == terminal(next, i));
    lemma_walk_fixed(next, i, n, n + 1);
    assert(walk(next, i, n + 1) == walk(next, next[i] as int, n));
}

/// A sequence of distinct sites of `0..n` has at most `n` entries.
pub proof fn lemma_distinct_sites(s: Seq<int>, n: int)
    requires
        0 <= n,
        s.no_duplicates(),
        forall|k: int| 0 <= k < s.len() ==> 0 <= #[trigger] s[k] < n,
    ensures
        s.len() <= n,
{
    s.unique_seq_to_set();
    lemma_int_range(0, n);
    assert(s.to_set().subset_of(set_int_range(0, n)));
    lemma_len_subset(s.to_set(), set_int_range(0, n));
}

/// A sequence of distinct sites of `0..n` has at most `n` entries, and holds
/// every site when it has exactly `n`.
pub proof fn lemma_distinct_indices(s: Seq<usize>, n: int)
    requires
        0 <= n,
        s.no_duplicates(),
        forall|k: int| 0 <= k < s.len() ==> #[trigger] s[k] < n,
    ensures
        s.len() <= n,
        s.len() == n ==> forall|x: usize| x < n ==> #[trigger] s.contains(x),
        (forall|x: usize| x < n ==> #[trigger] s.contains(x)) && n <= usize::MAX ==> s.len() == n,
{
    let t = Seq::new(s.len(), |k: int| s[k] as int);
    assert forall|a: int, b: int| 0 <= a < t.len() && 0 <= b < t.len() && a != b implies t[a] != t[b] by {
        assert(s[a] != s[b]);
    }
    lemma_distinct_sites(t, n);
    if (forall|x: usize| x < n ==> #[trigger] s.contains(x)) && n <= usize::MAX {
        t.unique_seq_to_set();
        lemma_int_range(0, n);
        assert(set_int_range(0, n).subset_of(t.to_set())) by {
            assert forall|y: int| set_int_range(0, n).contains(y) implies t.to_set().contains(y) by {
                assert(s.contains(y as usize));
                let k = choose|k: int| 0 <= k < s.len() && s[k] == y as usize;
                assert(t[k] == y);
            }
        }
        lemma_len_subset(set_int_range(0, n), t.to_set());
    }
    if s.len() == n {
        t.unique_seq_to_set();
        lemma_int_range(0, n);
        assert(t.to_set().subset_of(set_int_range(0, n)));
        lemma_subset_equality(t.to_set(), set_int_range(0, n));
        assert forall|x: usize| x < n implies #[trigger] s.contains(x) by {
            assert(set_int_range(0, n).contains(x as int));
            assert(t.to_set().contains(x as int));
            let k = choose|k: int| 0 <= k < t.len() && t[k] == x as int;
            assert(s[k] == x);
        }
    }
}

/// Walks along a tree whose every step goes to a strictly smaller key reach a
/// self-loop within as many steps as there are sites.
pub proof fn lemma_descending_settles(next: Seq<usize>, key: Seq<u64>)
    requires
        in_range(next),
        key.len() == next.len(),
        forall|i: int| 0 <= i < next.len() && #[trigger] next[i] != i ==> key[next[i] as int] < key[i],
    ensures
        settles(next),
{
    assert forall|i: int| 0 <= i < next.len() implies next[terminal(next, i)] == terminal(next, i) by {
        let n = next.len();
        if next[terminal(next, i)] != terminal(next, i) {
            // no step before `n` stood still, so the keys fall all along the walk
            assert forall|a: nat| a <= n implies next[#[trigger] walk(next, i, a)] != walk(next, i, a) by {
                if next[walk(next, i, a)] == walk(next, i, a) {
                    lemma_walk_fixed(next, i, a, n);
                }
            }
            assert forall|a: nat, b: nat| a < b <= n implies key[#[trigger] walk(next, i, b)] < key[
                #[trigger] walk(next, i, a)
            ] by {
                lemma_keys_fall(next, key, i, a, b);
            }
            let s = Seq::new(n + 1, |k: int| walk(next, i, k as nat));
            assert forall|k: int| 0 <= k < s.len() implies 0 <= #[trigger] s[k] < n by {
                lemma_walk_in_range(next, i, k as nat);
            }
            assert(s.no_duplicates()) by {
                assert forall|a: int, b: int| 0 <= a < s.len() && 0 <= b < s.len() && a != b implies s[a]
                    != s[b] by {
                    if a < b {
                        assert(key[walk(next, i, b as nat)] < key[walk(next, i, a as nat)]);
                    } else {
                        assert(key[walk(next, i, a as nat)] < key[walk(next, i, b as nat)]);
                    }
                }
            }
            lemma_distinct_sites(s, n as int);
        }
    }
}

proof fn lemma_keys_fall(next: Seq<usize>, key: Seq<u64>, i: int, a: nat, b: nat)
    requires
        in_range(next),
        key.len() == next.len(),
        0 <= i < next.len(),
        forall|i: int| 0 <= i < next.len() && #[trigger] next[i] != i ==> key[next[i] as int] < key[i],
        a < b,
        forall|c: nat| c < b ==> next[#[trigger] walk(next, i, c)] != walk(next, i, c),
    ensures
        key[walk(next, i, b)] < key[walk(next, i, a)],
    decreases b - a,
{
    let p = (b - 1) as nat;
    lemma_walk_step(next, i, p);
    lemma_walk_in_range(next, i, p);
    assert(next[walk(next, i, p)] != walk(next, i, p));
    if a < p {
        lemma_keys_fall(next, key, i, a, p);
    }
}

/// Following `next` from any site of a stream forest reaches an outlet within
/// as many steps as there are sites, and stays there.
pub proof fn lemma_forest_reaches_outlet(next: Seq<usize>, is_outlet: Seq<bool>, i: int, k: nat)
    requires
        is_stream_forest(next, is_outlet),
        0 <= i < next.len(),
        next.len() <= k,
    ensures
        is_outlet[walk(next, i, k)],
        walk(next, i, k) == terminal(next, i),
{
    lemma_walk_in_range(next, i, next.len());
    let t = terminal(next, i);
    assert(is_outlet[t]);
    assert(next[t] == t);
    lemma_walk_fixed(next, i, next.len(), k);
}

/// In a stream forest a site is a self-loop exactly when it is an outlet.
pub proof fn lemma_self_loop_iff_outlet(next: Seq<usize>, is_outlet: Seq<bool>, o: int)
    requires
        is_stream_forest(next, is_outlet),
        0 <= o < next.len(),
    ensures
        next[o] == o <==> is_outlet[o],
{
    if next[o] == o {
        assert(walk(next, o, 0) == o);
        lemma_walk_fixed(next, o, 0, next.len());
        assert(is_outlet[terminal(next, o)]);
    }
}

} // verus!
