//! The priority queue of ridge crossings used while lakes are carved.
use vstd::prelude::*;
use vstd::multiset::Multiset;
use vstd::seq_lib::{to_multiset_update, to_multiset_build, to_multiset_len, to_multiset_contains, to_multiset_remove};

verus! {

/// A site waiting in the ridge queue, with the order key of the length of the
/// edge through which it was reached.
#[derive(Debug, Clone, Copy, PartialEq, Eq, Structural)]
pub struct RidgeElement {
    pub index: usize,
    pub dist: u64,
}

/// Max-priority queue of ridge elements ordered by `dist`, and among equal
/// `dist` by `index`: a binary heap kept in a vector, where each element comes
/// before its children in that order.
pub struct RidgeQueue {
    items: Vec<RidgeElement>,
}

/// The queue's order: by `dist`, and among equal `dist` by `index`.
pub open spec fn ridge_order(e: RidgeElement) -> int {
    e.dist as int * 0x1_0000_0000_0000_0000 + e.index as int
}

/// `a` comes before `b` in the queue's order.
fn higher(a: &RidgeElement, b: &RidgeElement) -> (r: bool)
    ensures
        r == (ridge_order(*a) > ridge_order(*b)),
{
    a.dist > b.dist || (a.dist == b.dist && a.index > b.index)
}

/// The element of `q` that comes first in the queue's order.
pub open spec fn ridge_max(q: Multiset<RidgeElement>) -> RidgeElement {
    choose|e: RidgeElement| q.count(e) > 0 && forall|x: RidgeElement| #[trigger] q.count(x) > 0 ==> ridge_order(x) <= ridge_order(e)
}

proof fn lemma_order_injective(a: RidgeElement, b: RidgeElement)
    requires
        ridge_order(a) == ridge_order(b),
    ensures
        a == b,
{
    assert(a.index as int <= usize::MAX);
    assert(b.index as int <= usize::MAX);
    assert(usize::MAX < 0x1_0000_0000_0000_0000) by (nonlinear_arith);
}

pub open spec fn parent(i: int) -> int {
    (i - 1) / 2
}

/// Every element is at least as long as its children.
pub open spec fn is_heap(s: Seq<RidgeElement>) -> bool {
    forall|i: int| 0 < i < s.len() ==> #[trigger] ridge_order(s[parent(i)]) >= ridge_order(s[i])
}

proof fn lemma_root_is_max(s: Seq<RidgeElement>, i: int)
    requires
        is_heap(s),
        0 <= i < s.len(),
    ensures
        ridge_order(s[0]) >= ridge_order(s[i]),
    decreases i,
{
    if i > 0 {
        assert(ridge_order(s[parent(i)]) >= ridge_order(s[i]));
        lemma_root_is_max(s, parent(i));
    }
}

proof fn lemma_swap_keeps_contents(s: Seq<RidgeElement>, a: int, b: int)
    requires
        0 <= a < s.len(),
        0 <= b < s.len(),
    ensures
        s.update(a, s[b]).update(b, s[a]).to_multiset() =~= s.to_multiset(),
{
    broadcast use vstd::multiset::group_multiset_axioms;

    let s1 = s.update(a, s[b]);
    to_multiset_update(s, a, s[b]);
    to_multiset_update(s1, b, s[a]);
    to_multiset_len(s);
    to_multiset_contains(s, s[a]);
    to_multiset_contains(s, s[b]);
    assert(s.contains(s[a]));
    if a != b {
        assert(s1[b] == s[b]);
    }
}

impl RidgeQueue {
    /// The elements waiting in the queue.
    pub closed spec fn view(&self) -> Multiset<RidgeElement> {
        self.items@.to_multiset()
    }

    /// The heap order holds.
    pub closed spec fn wf(&self) -> bool {
        is_heap(self.items@)
    }

    pub fn new() -> (q: RidgeQueue)
        ensures
            q.wf(),
            q@ == Multiset::<RidgeElement>::empty(),
    {
        let q = RidgeQueue { items: Vec::new() };
        assert(q.items@.to_multiset() =~= Multiset::<RidgeElement>::empty()) by {
            broadcast use vstd::multiset::group_multiset_axioms;
            to_multiset_len(q.items@);
        }
        q
    }

    pub fn len(&self) -> (r: usize)
        ensures
            r == self@.len(),
    {
        proof {
            to_multiset_len(self.items@);
        }
        self.items.len()
    }

    pub fn is_empty(&self) -> (r: bool)
        ensures
            r == (self@.len() == 0),
    {
        proof {
            to_multiset_len(self.items@);
        }
        self.items.len() == 0
    }

    pub fn push(&mut self, e: RidgeElement)
        requires
            old(self).wf(),
        ensures
            final(self).wf(),
            final(self)@ == old(self)@.insert(e),
    {
        proof {
            to_multiset_build(self.items@, e);
        }
        self.items.push(e);
        let ghost goal = self.items@.to_multiset();
        let mut pos: usize = self.items.len() - 1;
        while pos > 0 && higher(&self.items[pos], &self.items[(pos - 1) / 2])
            invariant
                pos < self.items@.len(),
                self.items@.to_multiset() == goal,
                forall|i: int| 0 < i < self.items@.len() && i != pos ==> #[trigger] ridge_order(self.items@[parent(i)]) >= ridge_order(self.items@[i]),
                pos > 0 ==> forall|c: int| 0 < c < self.items@.len() && parent(c) == pos ==> ridge_order(self.items@[parent(pos as int)]) >= #[trigger] ridge_order(self.items@[c]),
            decreases pos,
        {
            let p = (pos - 1) / 2;
            let x = self.items[pos];
            let y = self.items[p];
            proof {
                lemma_swap_keeps_contents(self.items@, pos as int, p as int);
            }
            let ghost before = self.items@;
            self.items.set(pos, y);
            self.items.set(p, x);
            proof {
                assert(self.items@ == before.update(pos as int, before[p as int]).update(p as int, before[pos as int]));
                assert forall|i: int| 0 < i < self.items@.len() && i != p implies #[trigger] ridge_order(self.items@[parent(i)]) >= ridge_order(self.items@[i]) by {
                    if parent(i) == pos as int {
                        assert(ridge_order(before[parent(pos as int)]) >= ridge_order(before[i]));
                    } else if parent(i) == p as int && i != pos as int {
                        assert(ridge_order(before[p as int]) >= ridge_order(before[i]));
                    } else if i == pos as int {
                    } else {
                        assert(ridge_order(before[parent(i)]) >= ridge_order(before[i]));
                    }
                }
                if p > 0 {
                    assert forall|c: int| 0 < c < self.items@.len() && parent(c) == p implies ridge_order(self.items@[parent(p as int)]) >= #[trigger] ridge_order(self.items@[c]) by {
                        assert(ridge_order(before[parent(p as int)]) >= ridge_order(before[p as int]));
                        if c != pos as int {
                            assert(ridge_order(before[p as int]) >= ridge_order(before[c]));
                        }
                    }
                }
            }
            pos = p;
        }
        proof {
            assert forall|i: int| 0 < i < self.items@.len() implies #[trigger] ridge_order(self.items@[parent(i)]) >= ridge_order(self.items@[i]) by {
                if i == pos {
                }
            }
        }
    }

    /// Removes and returns the element with the greatest `dist` (the greatest
    /// `index` among those).
    pub fn pop(&mut self) -> (r: Option<RidgeElement>)
        requires
            old(self).wf(),
        ensures
            final(self).wf(),
            old(self)@.len() == 0 ==> r is None && final(self)@ == old(self)@,
            old(self)@.len() > 0 ==> r is Some && old(self)@.count(r->0) > 0 && final(self)@ == old(self)@.remove(r->0)
                && forall|e: RidgeElement| old(self)@.count(e) > 0 ==> ridge_order(e) <= ridge_order(r->0),
            old(self)@.len() > 0 ==> r == Some(ridge_max(old(self)@)),
    {
        proof {
            to_multiset_len(self.items@);
        }
        if self.items.len() == 0 {
            return None;
        }
        let ghost start = self.items@;
        let top = self.items[0];
        proof {
            assert forall|e: RidgeElement| start.to_multiset().count(e) > 0 implies ridge_order(e) <= ridge_order(top) by {
                to_multiset_contains(start, e);
                let k = choose|k: int| 0 <= k < start.len() && start[k] == e;
                lemma_root_is_max(start, k);
            }
            to_multiset_contains(start, top);
            assert(start.contains(top)) by {
                assert(start[0] == top);
            }
        }
        let n = self.items.len() - 1;
        // move the last element to the root; the root leaves
        let last = self.items[n];
        proof {
            lemma_swap_keeps_contents(start, 0, n as int);
        }
        self.items.set(0, last);
        self.items.set(n, top);
        let ghost swapped = self.items@;
        assert(swapped == start.update(0, start[n as int]).update(n as int, start[0]));
        self.items.pop();
        proof {
            assert(swapped.remove(n as int) =~= self.items@);
            to_multiset_remove(swapped, n as int);
        }
        let ghost goal = self.items@.to_multiset();
        let len = self.items.len();
        let mut pos: usize = 0;
        let mut done = false;
        while pos < len / 2 && !done
            invariant
                done ==> is_heap(self.items@),
                len == self.items@.len(),
                pos < len || len == 0,
                self.items@.to_multiset() == goal,
                forall|i: int| 0 < i < self.items@.len() && parent(i) != pos ==> #[trigger] ridge_order(self.items@[parent(i)]) >= ridge_order(self.items@[i]),
                pos > 0 ==> forall|c: int| 0 < c < self.items@.len() && parent(c) == pos ==> ridge_order(self.items@[parent(pos as int)]) >= #[trigger] ridge_order(self.items@[c]),
            decreases len - pos, if done { 0int } else { 1int },
        {
            let l = pos + pos + 1;
            let mut c = l;
            if l + 1 < len && higher(&self.items[l + 1], &self.items[l]) {
                c = l + 1;
            }
            if !higher(&self.items[c], &self.items[pos]) {
                proof {
                    assert forall|i: int| 0 < i < self.items@.len() implies #[trigger] ridge_order(self.items@[parent(i)]) >= ridge_order(self.items@[i]) by {
                        if parent(i) == pos {
                            assert(i == l || i == l + 1);
                        }
                    }
                }
                done = true;
            } else {
            let x = self.items[pos];
            let y = self.items[c];
            proof {
                lemma_swap_keeps_contents(self.items@, pos as int, c as int);
            }
            let ghost before = self.items@;
            self.items.set(pos, y);
            self.items.set(c, x);
            proof {
                assert(parent(l as int) == pos);
                assert(parent(c as int) == pos);
                assert(self.items@ == before.update(pos as int, before[c as int]).update(c as int, before[pos as int]));
                assert forall|i: int| 0 < i < self.items@.len() && parent(i) != c implies #[trigger] ridge_order(self.items@[parent(i)]) >= ridge_order(self.items@[i]) by {
                    if i == pos as int {
                        assert(ridge_order(before[parent(pos as int)]) >= ridge_order(before[c as int]));
                    } else if parent(i) == pos as int {
                        assert(i == l || i == l + 1);
                    } else if i == c as int {
                    } else if parent(i) == c as int {
                    } else {
                        assert(ridge_order(before[parent(i)]) >= ridge_order(before[i]));
                    }
                }
                assert forall|k: int| 0 < k < self.items@.len() && parent(k) == c implies ridge_order(self.items@[parent(c as int)]) >= #[trigger] ridge_order(self.items@[k]) by {
                    assert(ridge_order(before[c as int]) >= ridge_order(before[k]));
                }
            }
            pos = c;
            }
        }
        proof {
            assert forall|i: int| 0 < i < self.items@.len() implies #[trigger] ridge_order(self.items@[parent(i)]) >= ridge_order(self.items@[i]) by {
                if parent(i) == pos && !done {
                    assert(i >= pos + pos + 1);
                }
            }
            assert(self.items@.to_multiset() =~= start.to_multiset().remove(top));
            let m = ridge_max(start.to_multiset());
            assert(start.to_multiset().count(m) > 0 && forall|x: RidgeElement| #[trigger] start.to_multiset().count(x) > 0 ==> ridge_order(x) <= ridge_order(m));
            assert(ridge_order(m) <= ridge_order(top));
            assert(ridge_order(top) <= ridge_order(m));
            lemma_order_injective(m, top);
        }
        Some(top)
    }
}

} // verus!
