//! The frontier of the traversal: a binary min-heap of tentative distances.

use std::cmp::Ordering;
use vstd::multiset::Multiset;
use vstd::prelude::*;
use vstd::seq_lib::to_multiset_contains;
use vstd::seq_lib::to_multiset_len;
use vstd::seq_lib::to_multiset_remove;
use vstd::seq_lib::to_multiset_update;
use vstd::std_specs::cmp::PartialOrdSpec;

verus! {

/// A node together with a tentative distance from the origin.
///
/// Entries are compared by their distance alone, and the nearer entry is the
/// greater one: two entries at one distance are equal, whatever their nodes.
#[derive(Debug, Clone, Copy)]
pub struct Node {
    /// The distance of the node from the starting node.
    pub distance: usize,
    /// The index of the node in the graph.
    pub index: usize,
}

impl PartialEq for Node {
    /// Whether the two entries are at one distance.
    fn eq(&self, other: &Self) -> (equal: bool) {
        self.distance == other.distance
    }
}

impl vstd::std_specs::cmp::PartialEqSpecImpl for Node {
    open spec fn obeys_eq_spec() -> bool {
        true
    }

    open spec fn eq_spec(&self, other: &Node) -> bool {
        self.distance == other.distance
    }
}

impl Eq for Node {

}

impl PartialOrd for Node {
    /// The order of the two distances, reversed: `Greater` where `self` is
    /// the nearer entry.
    fn partial_cmp(&self, other: &Self) -> (order: Option<Ordering>) {
        other.distance.partial_cmp(&self.distance)
    }
}

impl vstd::std_specs::cmp::PartialOrdSpecImpl for Node {
    open spec fn obeys_partial_cmp_spec() -> bool {
        true
    }

    open spec fn partial_cmp_spec(&self, other: &Node) -> Option<Ordering> {
        if other.distance < self.distance {
            Some(Ordering::Less)
        } else if other.distance == self.distance {
            Some(Ordering::Equal)
        } else {
            Some(Ordering::Greater)
        }
    }
}

impl Node {
    /// The order in which entries leave the frontier: by ascending distance,
    /// and among equal distances by ascending node index. It settles what
    /// the comparison of entries leaves open, and which of two equal entries
    /// leaves first.
    pub open spec fn spec_precedes(self, other: Node) -> bool {
        self.distance < other.distance || (self.distance == other.distance && self.index
            <= other.index)
    }

    /// Whether `self` leaves the frontier no later than `other`.
    #[verifier::when_used_as_spec(spec_precedes)]
    pub fn precedes(self, other: Node) -> (b: bool)
        ensures
            b == self.spec_precedes(other),
    {
        self.distance < other.distance || (self.distance == other.distance && self.index
            <= other.index)
    }
}

/// The order in which entries leave refines their comparison: an entry that
/// precedes another is not the lesser of the two, and the greater of two
/// entries precedes the other.
pub proof fn lemma_precedes_refines_order(a: Node, b: Node)
    ensures
        a.precedes(b) ==> a.partial_cmp_spec(&b) != Some(Ordering::Less),
        a.partial_cmp_spec(&b) == Some(Ordering::Greater) ==> a.precedes(b) && !b.precedes(a),
        a.precedes(b) || b.precedes(a),
{
}

spec fn parent(i: int) -> int {
    (i - 1) / 2
}

/// Every position but `hole` holds an entry that its parent precedes.
spec fn ordered_but(h: Seq<Node>, hole: int) -> bool {
    forall|i: int| 0 < i < h.len() && i != hole ==> h[parent(i)].precedes(#[trigger] h[i])
}

/// Every position whose parent is not `top` holds an entry that its parent
/// precedes.
spec fn ordered_below(h: Seq<Node>, top: int) -> bool {
    forall|i: int| 0 < i < h.len() && parent(i) != top ==> h[parent(i)].precedes(#[trigger] h[i])
}

/// The parent of `pos`, if it has one, precedes every child of `pos`.
spec fn spans(h: Seq<Node>, pos: int) -> bool {
    pos > 0 ==> forall|i: int|
        0 < i < h.len() && parent(i) == pos ==> h[parent(pos)].precedes(#[trigger] h[i])
}

proof fn lemma_root_precedes(h: Seq<Node>, i: int)
    requires
        ordered_but(h, 0),
        0 <= i < h.len(),
    ensures
        h[0].precedes(h[i]),
    decreases i,
{
    if i > 0 {
        lemma_root_precedes(h, parent(i));
    }
}

proof fn lemma_swap_keeps_multiset(h: Seq<Node>, i: int, j: int)
    requires
        0 <= i < h.len(),
        0 <= j < h.len(),
    ensures
        h.update(i, h[j]).update(j, h[i]).to_multiset() == h.to_multiset(),
{
    if i == j {
        assert(h.update(i, h[j]).update(j, h[i]) =~= h);
    } else {
        let mid = h.update(i, h[j]);
        to_multiset_update(h, i, h[j]);
        to_multiset_update(mid, j, h[i]);
        to_multiset_contains(h, h[i]);
        to_multiset_contains(h, h[j]);
        assert(h.contains(h[i]));
        assert(h.contains(h[j]));
        assert(mid.update(j, h[i]).to_multiset() =~= h.to_multiset());
    }
}

/// Moves the entry at `start` towards the root until its parent precedes it.
fn sift_up(heap: &mut Vec<Node>, start: usize)
    requires
        start < old(heap)@.len(),
        ordered_but(old(heap)@, start as int),
        spans(old(heap)@, start as int),
    ensures
        ordered_but(final(heap)@, 0),
        final(heap)@.to_multiset() == old(heap)@.to_multiset(),
{
    let mut pos: usize = start;
    while pos > 0 && !heap[(pos - 1) / 2].precedes(heap[pos])
        invariant
            pos < heap@.len(),
            ordered_but(heap@, pos as int),
            spans(heap@, pos as int),
            heap@.to_multiset() == old(heap)@.to_multiset(),
        decreases pos,
    {
        let up: usize = (pos - 1) / 2;
        let below = heap[pos];
        let above = heap[up];
        proof {
            lemma_swap_keeps_multiset(heap@, pos as int, up as int);
        }
        let ghost before = heap@;
        heap[pos] = above;
        heap[up] = below;
        assert(ordered_but(heap@, up as int)) by {
            assert forall|i: int| 0 < i < heap@.len() && i != up implies heap@[parent(i)].precedes(
                #[trigger] heap@[i],
            ) by {
                if i == pos {
                } else if parent(i) == up {
                    assert(before[parent(i)].precedes(before[i]));
                } else if parent(i) == pos {
                    assert(before[up as int].precedes(before[i]));
                } else {
                    assert(before[parent(i)].precedes(before[i]));
                }
            }
        }
        assert(spans(heap@, up as int)) by {
            if up > 0 {
                assert(before[parent(up as int)].precedes(before[up as int]));
                assert forall|i: int|
                    0 < i < heap@.len() && parent(i) == up implies heap@[parent(
                    up as int,
                )].precedes(#[trigger] heap@[i]) by {
                    if i != pos {
                        assert(before[parent(i)].precedes(before[i]));
                    }
                }
            }
        }
        pos = up;
    }
}

/// Moves the entry at `start` away from the root until it precedes its
/// children.
fn sift_down(heap: &mut Vec<Node>, start: usize)
    requires
        start < old(heap)@.len(),
        ordered_below(old(heap)@, start as int),
        spans(old(heap)@, start as int),
    ensures
        ordered_but(final(heap)@, 0),
        final(heap)@.to_multiset() == old(heap)@.to_multiset(),
{
    let n: usize = heap.len();
    let mut pos: usize = start;
    while pos < n / 2
        invariant
            n == heap@.len(),
            pos < n,
            ordered_below(heap@, pos as int),
            spans(heap@, pos as int),
            heap@.to_multiset() == old(heap)@.to_multiset(),
        ensures
            ordered_but(heap@, 0),
            heap@.to_multiset() == old(heap)@.to_multiset(),
        decreases n - pos,
    {
        let left: usize = 2 * pos + 1;
        let right: usize = left + 1;
        let mut least: usize = left;
        if right < n && heap[right].precedes(heap[left]) {
            least = right;
        }
        let here = heap[pos];
        let child = heap[least];
        if here.precedes(child) {
            assert(ordered_but(heap@, 0)) by {
                assert forall|i: int| 0 < i < heap@.len() implies heap@[parent(i)].precedes(
                    #[trigger] heap@[i],
                ) by {
                    if parent(i) == pos {
                        assert(i == left || i == right);
                    }
                }
            }
            break;
        }
        proof {
            lemma_swap_keeps_multiset(heap@, pos as int, least as int);
        }
        let ghost before = heap@;
        heap[pos] = child;
        heap[least] = here;
        assert(ordered_below(heap@, least as int)) by {
            assert forall|i: int|
                0 < i < heap@.len() && parent(i) != least implies heap@[parent(i)].precedes(
                #[trigger] heap@[i],
            ) by {
                if i == least {
                } else if parent(i) == pos {
                    assert(i == left || i == right);
                } else if i == pos {
                    assert(parent(least as int) == pos);
                    assert(before[parent(pos as int)].precedes(before[least as int]));
                } else {
                    assert(before[parent(i)].precedes(before[i]));
                }
            }
        }
        assert(spans(heap@, least as int)) by {
            assert forall|i: int|
                0 < i < heap@.len() && parent(i) == least implies heap@[parent(
                least as int,
            )].precedes(#[trigger] heap@[i]) by {
                assert(before[parent(i)].precedes(before[i]));
            }
        }
        pos = least;
    }
    assert(ordered_but(heap@, 0)) by {
        assert forall|i: int| 0 < i < heap@.len() implies heap@[parent(i)].precedes(
            #[trigger] heap@[i],
        ) by {
            if parent(i) == pos {
                assert(i >= 2 * pos + 1);
            }
        }
    }
}

/// The entries that wait to be extracted, smallest tentative distance first.
#[derive(Debug)]
pub struct Frontier {
    heap: Vec<Node>,
}

impl View for Frontier {
    type V = Multiset<Node>;

    closed spec fn view(&self) -> Multiset<Node> {
        self.heap@.to_multiset()
    }
}

impl Frontier {
    #[verifier::type_invariant]
    spec fn heap_ordered(self) -> bool {
        ordered_but(self.heap@, 0)
    }

    /// A frontier that holds no entry.
    pub fn new() -> (frontier: Frontier)
        ensures
            frontier@ == Multiset::<Node>::empty(),
    {
        let frontier = Frontier { heap: Vec::new() };
        assert(frontier.heap@.to_multiset() =~= Multiset::<Node>::empty()) by {
            to_multiset_len(frontier.heap@);
        }
        frontier
    }

    /// The number of entries, each counted as often as it was pushed.
    pub fn len(&self) -> (n: usize)
        ensures
            n == self@.len(),
    {
        proof {
            to_multiset_len(self.heap@);
        }
        self.heap.len()
    }

    /// Whether no entry is left.
    pub fn is_empty(&self) -> (b: bool)
        ensures
            b == (self@.len() == 0),
    {
        proof {
            to_multiset_len(self.heap@);
        }
        self.heap.len() == 0
    }

    /// Adds `node` to the frontier.
    pub fn push(&mut self, node: Node)
        ensures
            final(self)@ == old(self)@.insert(node),
    {
        proof {
            use_type_invariant(&*self);
        }
        let mut heap: Vec<Node> = Vec::new();
        std::mem::swap(&mut heap, &mut self.heap);
        let ghost before = heap@;
        heap.push(node);
        proof {
            before.to_multiset_ensures();
            assert(heap@ =~= before.push(node));
        }
        let last: usize = heap.len() - 1;
        sift_up(&mut heap, last);
        self.heap = heap;
    }

    /// Takes out the entry that precedes all others, if there is one.
    pub fn pop(&mut self) -> (next: Option<Node>)
        ensures
            old(self)@.len() == 0 ==> next is None && final(self)@ == old(self)@,
            old(self)@.len() > 0 ==> next is Some,
            next matches Some(node) ==> {
                &&& old(self)@.contains(node)
                &&& final(self)@ == old(self)@.remove(node)
                &&& forall|other: Node| old(self)@.contains(other) ==> node.precedes(other)
            },
    {
        proof {
            use_type_invariant(&*self);
            to_multiset_len(self.heap@);
        }
        let mut heap: Vec<Node> = Vec::new();
        std::mem::swap(&mut heap, &mut self.heap);
        let ghost before = heap@;
        let n: usize = heap.len();
        if n == 0 {
            self.heap = heap;
            return None;
        }
        let top = heap[0];
        let last = heap[n - 1];
        heap[0] = last;
        heap.pop();
        proof {
            let swapped = before.update(0, last).update(n - 1, top);
            lemma_swap_keeps_multiset(before, 0, n - 1);
            to_multiset_remove(swapped, n - 1);
            assert(heap@ =~= swapped.remove(n - 1));
            to_multiset_contains(before, top);
            assert(before.contains(top));
            assert forall|other: Node| before.to_multiset().contains(other) implies top.precedes(
                other,
            ) by {
                to_multiset_contains(before, other);
                let i = choose|i: int| 0 <= i < before.len() && before[i] == other;
                lemma_root_precedes(before, i);
            }
        }
        if n > 1 {
            assert(ordered_below(heap@, 0)) by {
                assert forall|i: int|
                    0 < i < heap@.len() && parent(i) != 0 implies heap@[parent(i)].precedes(
                    #[trigger] heap@[i],
                ) by {
                    assert(before[parent(i)].precedes(before[i]));
                }
            }
            sift_down(&mut heap, 0);
        }
        self.heap = heap;
        Some(top)
    }
}

} // verus!
