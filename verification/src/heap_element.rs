//! Heap elements for the zipper merge, and the priority queue over them.
//!
//! An element carries the normalized progress of one incoming stream as a
//! `Fraction` priority.  The stream with the *smallest* priority value is
//! served first; ties are broken towards the smaller edge id, so the
//! synthetic entering stream (with the largest possible edge id) loses every
//! tie.

use vstd::prelude::*;
use crate::fraction::{Fraction, frac_lt, frac_eq};
use crate::fraction::lemma_order_total;
use crate::fraction::lemma_order_trans;

verus! {

/// One entry of the zipper priority queue.
#[derive(Debug, Clone, PartialEq, Eq)]
pub struct MaxHeapElement {
    /// Normalized progress of the stream; a smaller value is served first.
    pub priority: Fraction,
    /// Edge the stream comes from; the tie break prefers the smaller id.
    pub edge_id: usize,
    /// Index of the stream among the queues feeding one outgoing edge.
    pub queue_id: usize,
}

/// `a` is served strictly before `b`: its priority value is smaller, or the
/// values tie and its edge id is smaller.
pub open spec fn pops_before(a: MaxHeapElement, b: MaxHeapElement) -> bool {
    frac_lt(a.priority, b.priority) || (frac_eq(a.priority, b.priority) && a.edge_id < b.edge_id)
}

/// Serving order is transitive on well-formed priorities.
pub proof fn lemma_pops_before_trans(a: MaxHeapElement, b: MaxHeapElement, c: MaxHeapElement)
    requires
        a.priority.wf(),
        b.priority.wf(),
        c.priority.wf(),
        pops_before(a, b),
        pops_before(b, c),
    ensures
        pops_before(a, c),
{
    lemma_order_total(a.priority, b.priority);
    lemma_order_total(b.priority, c.priority);
    lemma_order_total(a.priority, c.priority);
    if frac_lt(a.priority, b.priority) || frac_lt(b.priority, c.priority) {
        lemma_order_trans(a.priority, b.priority, c.priority);
    } else {
        lemma_order_trans(a.priority, b.priority, c.priority);
    }
}

/// Index of the element served first among the first `n` entries of `s`,
/// scanning front to back and keeping the earlier entry when neither pops
/// before the other.
pub open spec fn best_upto(s: Seq<MaxHeapElement>, n: int) -> int
    decreases n,
{
    if n <= 1 {
        0
    } else {
        let b = best_upto(s, n - 1);
        if pops_before(s[n - 1], s[b]) {
            n - 1
        } else {
            b
        }
    }
}

/// Index of the element the queue serves next.
pub open spec fn best_index(s: Seq<MaxHeapElement>) -> int {
    best_upto(s, s.len() as int)
}

/// The selected index is in range and no scanned element pops before it.
pub proof fn lemma_best_is_min(s: Seq<MaxHeapElement>, n: int)
    requires
        1 <= n <= s.len(),
        forall|i: int| 0 <= i < n ==> (#[trigger] s[i]).priority.wf(),
    ensures
        0 <= best_upto(s, n) < n,
        forall|i: int| 0 <= i < n ==> !pops_before(#[trigger] s[i], s[best_upto(s, n)]),
    decreases n,
{
    if n > 1 {
        lemma_best_is_min(s, n - 1);
        let b = best_upto(s, n - 1);
        if pops_before(s[n - 1], s[b]) {
            assert forall|i: int| 0 <= i < n implies !pops_before(#[trigger] s[i], s[n - 1]) by {
                if i < n - 1 && pops_before(s[i], s[n - 1]) {
                    lemma_pops_before_trans(s[i], s[n - 1], s[b]);
                }
            }
        }
    }
}

/// A priority queue of zipper elements, served smallest priority first.
///
/// The queue keeps its entries in a plain vector and selects the served
/// element by a verified scan, which realizes exactly the heap order above.
pub struct PriorityQueue {
    elements: Vec<MaxHeapElement>,
}

impl View for PriorityQueue {
    type V = Seq<MaxHeapElement>;

    closed spec fn view(&self) -> Seq<MaxHeapElement> {
        self.elements@
    }
}

impl PriorityQueue {
    /// All stored priorities are well-formed fractions.
    pub open spec fn wf(self) -> bool {
        forall|i: int| 0 <= i < self@.len() ==> (#[trigger] self@[i]).priority.wf()
    }

    /// Create an empty queue.
    pub fn new() -> (q: PriorityQueue)
        ensures
            q@ == Seq::<MaxHeapElement>::empty(),
            q.wf(),
    {
        PriorityQueue { elements: Vec::new() }
    }

    /// Number of queued elements.
    pub fn len(&self) -> (n: usize)
        ensures
            n == self@.len(),
    {
        self.elements.len()
    }

    /// Whether the queue holds no element.
    pub fn is_empty(&self) -> (r: bool)
        ensures
            r <==> self@.len() == 0,
    {
        self.elements.len() == 0
    }

    /// Add an element to the queue.
    pub fn push(&mut self, e: MaxHeapElement)
        requires
            old(self).wf(),
            e.priority.wf(),
        ensures
            final(self)@ == old(self)@.push(e),
            final(self).wf(),
    {
        self.elements.push(e);
        proof {
            assert forall|i: int| 0 <= i < self@.len() implies (#[trigger] self@[i]).priority.wf()
            by {
                if i < old(self)@.len() {
                    assert(self@[i] == old(self)@[i]);
                } else {
                    assert(self@[i] == e);
                }
            }
        }
    }

    /// Remove and return the element that is served first: the smallest
    /// priority value, ties broken towards the smaller edge id (the earliest
    /// such entry if both fields tie).
    pub fn pop(&mut self) -> (r: MaxHeapElement)
        requires
            old(self).wf(),
            old(self)@.len() > 0,
        ensures
            r == old(self)@[best_index(old(self)@)],
            final(self)@ == old(self)@.remove(best_index(old(self)@)),
            final(self).wf(),
            forall|i: int| 0 <= i < old(self)@.len() ==> !pops_before(#[trigger] old(self)@[i], r),
    {
        let ghost s = self@;
        let mut best: usize = 0;
        let mut j: usize = 1;
        while j < self.elements.len()
            invariant
                self@ == s,
                1 <= j <= s.len(),
                0 <= best < j,
                best == best_upto(s, j as int),
                forall|i: int| 0 <= i < s.len() ==> (#[trigger] s[i]).priority.wf(),
            decreases s.len() - j,
        {
            let earlier = (self.elements[j].priority == self.elements[best].priority
                && self.elements[j].edge_id < self.elements[best].edge_id) || (
            !(self.elements[j].priority == self.elements[best].priority)
                && self.elements[j].priority < self.elements[best].priority);
            proof {
                lemma_order_total(s[j as int].priority, s[best as int].priority);
            }
            if earlier {
                best = j;
            }
            j = j + 1;
        }
        proof {
            lemma_best_is_min(s, s.len() as int);
        }
        self.elements.remove(best)
    }
}

} // verus!
