//! A binary heap of graph vertices that gives out a vertex of least cost.

use vstd::multiset::Multiset;
use vstd::prelude::*;

verus! {

/// A vertex that waits to be visited, with the cost at which it was
/// reached.
#[derive(Debug, Clone, Copy, PartialEq, Eq)]
pub struct Node {
    pub vertex: usize,
    pub cost: usize,
}

/// The position above `k` in the heap.
spec fn above(k: int) -> int {
    (k - 1) / 2
}

/// Whether no node costs less than the node above it.
spec fn is_heap(s: Seq<Node>) -> bool {
    forall|k: int| 1 <= k < s.len() ==> s[above(k)].cost <= (#[trigger] s[k]).cost
}

/// Whether `s` is a heap but for the node at `hole`, which may cost less
/// than the node above it; the nodes below `hole` do not cost less than
/// the node above `hole`.
spec fn is_heap_but_up(s: Seq<Node>, hole: int) -> bool {
    &&& forall|k: int| 1 <= k < s.len() && k != hole ==> s[above(k)].cost <= (#[trigger] s[k]).cost
    &&& forall|k: int|
        1 <= k < s.len() && above(k) == hole && hole >= 1 ==> s[above(hole)].cost <= (
        #[trigger] s[k]).cost
}

/// Whether `s` is a heap but for the node at `hole`, which may cost more
/// than the nodes below it; the nodes below `hole` do not cost less than
/// the node above `hole`.
spec fn is_heap_but_down(s: Seq<Node>, hole: int) -> bool {
    &&& forall|k: int|
        1 <= k < s.len() && above(k) != hole ==> s[above(k)].cost <= (#[trigger] s[k]).cost
    &&& forall|k: int|
        1 <= k < s.len() && above(k) == hole && hole >= 1 ==> s[above(hole)].cost <= (
        #[trigger] s[k]).cost
}

/// The node at the top of a heap costs least.
proof fn lemma_top_is_least(s: Seq<Node>, k: int)
    requires
        is_heap(s),
        0 <= k < s.len(),
    ensures
        s[0].cost <= s[k].cost,
    decreases k,
{
    if k > 0 {
        lemma_top_is_least(s, above(k));
    }
}

/// Two nodes that change places leave the same nodes.
proof fn lemma_exchange_keeps_nodes(s: Seq<Node>, i: int, j: int)
    requires
        0 <= i < s.len(),
        0 <= j < s.len(),
    ensures
        s.update(i, s[j]).update(j, s[i]).to_multiset() == s.to_multiset(),
{
    broadcast use vstd::multiset::group_multiset_axioms;

    let once = s.update(i, s[j]);
    vstd::seq_lib::to_multiset_update(s, i, s[j]);
    vstd::seq_lib::to_multiset_update(once, j, s[i]);
    vstd::seq_lib::to_multiset_contains(s, s[i]);
    vstd::seq_lib::to_multiset_contains(s, s[j]);
    assert(s.contains(s[i]) && s.contains(s[j]));
    assert(once.update(j, s[i]).to_multiset() =~= s.to_multiset());
}

/// The vertices that wait to be visited, arranged so that one of least
/// cost is at hand.
pub struct NodeHeap {
    items: Vec<Node>,
}

impl View for NodeHeap {
    type V = Multiset<Node>;

    /// The nodes that wait, each as often as it was pushed and not yet
    /// popped.
    closed spec fn view(&self) -> Multiset<Node> {
        self.items@.to_multiset()
    }
}

impl NodeHeap {
    /// Whether the nodes are arranged as a heap.
    pub closed spec fn wf(&self) -> bool {
        is_heap(self.items@)
    }

    /// A heap without nodes.
    pub fn new() -> (heap: Self)
        ensures
            heap.wf(),
            heap@ == Multiset::<Node>::empty(),
    {
        let heap = NodeHeap { items: Vec::new() };
        proof {
            broadcast use vstd::seq_lib::group_to_multiset_ensures;

            assert(heap.items@ =~= Seq::<Node>::empty());
            assert(heap@ =~= Multiset::<Node>::empty());
        }
        heap
    }

    /// The number of nodes that wait.
    pub fn len(&self) -> (n: usize)
        ensures
            n == self@.len(),
    {
        proof {
            vstd::seq_lib::to_multiset_len(self.items@);
        }
        self.items.len()
    }

    /// Adds `node` to the nodes that wait.
    pub fn push(&mut self, node: Node)
        requires
            old(self).wf(),
        ensures
            final(self).wf(),
            final(self)@ == old(self)@.insert(node),
    {
        proof {
            vstd::seq_lib::to_multiset_build(self.items@, node);
        }
        self.items.push(node);
        let mut i = self.items.len() - 1;
        while i > 0 && self.items[(i - 1) / 2].cost > self.items[i].cost
            invariant
                i < self.items@.len(),
                self.items@.to_multiset() == old(self)@.insert(node),
                is_heap_but_up(self.items@, i as int),
            decreases i,
        {
            let up = (i - 1) / 2;
            let (low, high) = (self.items[i], self.items[up]);
            proof {
                lemma_exchange_keeps_nodes(self.items@, i as int, up as int);
            }
            let ghost before = self.items@;
            self.items[i] = high;
            self.items[up] = low;
            proof {
                let after = self.items@;
                assert(after =~= before.update(i as int, before[up as int]).update(
                    up as int,
                    before[i as int],
                ));
                assert forall|k: int| 1 <= k < after.len() && k != up implies after[above(k)].cost <= (
                #[trigger] after[k]).cost by {
                    if k != i && above(k) != up && above(k) != i {
                        assert(before[above(k)].cost <= before[k].cost);
                    }
                }
                assert forall|k: int|
                    1 <= k < after.len() && above(k) == up && up >= 1 implies after[above(
                    up as int,
                )].cost <= (#[trigger] after[k]).cost by {
                    assert(before[above(up as int)].cost <= before[up as int].cost);
                    if k != i {
                        assert(before[above(k)].cost <= before[k].cost);
                    }
                }
            }
            i = up;
        }
        proof {
            assert forall|k: int| 1 <= k < self.items@.len() implies self.items@[above(k)].cost <= (
            #[trigger] self.items@[k]).cost by {}
        }
    }

    /// Takes out a node of least cost, if any node waits.
    pub fn pop(&mut self) -> (least: Option<Node>)
        requires
            old(self).wf(),
        ensures
            final(self).wf(),
            match least {
                Some(node) => {
                    &&& old(self)@.count(node) > 0
                    &&& final(self)@ == old(self)@.remove(node)
                    &&& forall|other: Node| old(self)@.count(other) > 0 ==> node.cost <= other.cost
                },
                None => old(self)@.len() == 0 && final(self)@ == old(self)@,
            },
    {
        let ghost waiting = self.items@;
        proof {
            vstd::seq_lib::to_multiset_len(waiting);
        }
        if self.items.len() == 0 {
            return None;
        }
        let least = self.items[0];
        let last = self.items.pop().unwrap();
        proof {
            broadcast use vstd::multiset::group_multiset_axioms;

            assert forall|other: Node| waiting.to_multiset().count(other) > 0 implies least.cost
                <= other.cost by {
                vstd::seq_lib::to_multiset_contains(waiting, other);
                let k = choose|k: int| 0 <= k < waiting.len() && waiting[k] == other;
                lemma_top_is_least(waiting, k);
            }
            vstd::seq_lib::to_multiset_contains(waiting, least);
            assert(waiting.contains(waiting[0]));
            assert(self.items@ =~= waiting.remove(waiting.len() - 1));
            vstd::seq_lib::to_multiset_remove(waiting, waiting.len() - 1);
        }
        let n = self.items.len();
        if n == 0 {
            return Some(least);
        }
        let ghost shorter = self.items@;
        self.items[0] = last;
        proof {
            broadcast use vstd::multiset::group_multiset_axioms;

            vstd::seq_lib::to_multiset_update(shorter, 0, last);
            vstd::seq_lib::to_multiset_contains(waiting, last);
            assert(waiting.contains(waiting[waiting.len() - 1]));
            vstd::seq_lib::to_multiset_contains(shorter, shorter[0]);
            assert(shorter.contains(shorter[0]));
            assert(shorter[0] == least);
            assert(self.items@.to_multiset() =~= waiting.to_multiset().remove(least));
            assert forall|k: int| 1 <= k < self.items@.len() && above(k) != 0 implies self.items@[above(
                k,
            )].cost <= (#[trigger] self.items@[k]).cost by {
                assert(waiting[above(k)].cost <= waiting[k].cost);
            }
        }
        let mut i: usize = 0;
        while i < n / 2
            invariant
                n == self.items@.len(),
                i < n,
                waiting.to_multiset() == old(self)@,
                waiting.to_multiset().count(least) > 0,
                forall|other: Node| waiting.to_multiset().count(other) > 0 ==> least.cost <= other.cost,
                self.items@.to_multiset() == waiting.to_multiset().remove(least),
                is_heap_but_down(self.items@, i as int),
            decreases n - i,
        {
            let left = 2 * i + 1;
            let mut small = left;
            if left + 1 < n && self.items[left + 1].cost < self.items[left].cost {
                small = left + 1;
            }
            let (high, low) = (self.items[i], self.items[small]);
            if high.cost <= low.cost {
                proof {
                    assert forall|k: int| 1 <= k < n implies self.items@[above(k)].cost <= (
                    #[trigger] self.items@[k]).cost by {
                        if above(k) == i {
                            assert(k == left || k == left + 1);
                        }
                    }
                }
                return Some(least);
            }
            proof {
                lemma_exchange_keeps_nodes(self.items@, i as int, small as int);
            }
            let ghost before = self.items@;
            self.items[i] = low;
            self.items[small] = high;
            proof {
                let after = self.items@;
                assert(after =~= before.update(i as int, before[small as int]).update(
                    small as int,
                    before[i as int],
                ));
                assert forall|k: int| 1 <= k < after.len() && above(k) != small implies after[above(
                    k,
                )].cost <= (#[trigger] after[k]).cost by {
                    if above(k) == i {
                        assert(k == left || k == left + 1);
                    } else if k == i {
                        assert(before[above(i as int)].cost <= before[small as int].cost);
                    } else {
                        assert(before[above(k)].cost <= before[k].cost);
                    }
                }
                assert forall|k: int| 1 <= k < after.len() && above(k) == small implies after[above(
                    small as int,
                )].cost <= (#[trigger] after[k]).cost by {
                    assert(before[above(k)].cost <= before[k].cost);
                }
            }
            i = small;
        }
        proof {
            assert forall|k: int| 1 <= k < n implies self.items@[above(k)].cost <= (
            #[trigger] self.items@[k]).cost by {
                if above(k) == i {
                    assert(k >= 2 * i + 1);
                }
            }
        }
        Some(least)
    }
}

} // verus!
