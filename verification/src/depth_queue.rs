//! A priority structure that yields pending cells in ascending physical
//! depth, first-in-first-out among cells sharing the same depth.
//!
//! Depth is carried as a `u64` ordering key.  Physical depths are real
//! numbers; the caller encodes them with any order-preserving map into
//! `u64` (for IEEE doubles, the usual total-order bit trick), so that key
//! order is depth order and equal depths share one key.

use vstd::prelude::*;

verus! {

/// One pending cell: an ordering key and the cell's grid position.
#[derive(Clone, Copy, PartialEq, Eq, Structural, Debug)]
pub struct QueueEntry {
    pub depth: u64,
    pub x: usize,
    pub y: usize,
    pub z: usize,
}

/// Entries stand in ascending depth order.
pub open spec fn depth_sorted(q: Seq<QueueEntry>) -> bool {
    forall|i: int, j: int| 0 <= i <= j < q.len() ==> q[i].depth <= q[j].depth
}

/// What one push does to the pending sequence: the new entry goes after
/// every entry whose depth is at or above... rather, after every entry of
/// equal or shallower depth, and before every strictly deeper one, so
/// entries of one depth keep their push order.
pub open spec fn spec_push(q: Seq<QueueEntry>, e: QueueEntry) -> Seq<QueueEntry>
    decreases q.len(),
{
    if q.len() > 0 && q[0].depth <= e.depth {
        seq![q[0]] + spec_push(q.drop_first(), e)
    } else {
        seq![e] + q
    }
}

/// For a sorted sequence, `spec_push` is insertion at the boundary
/// position between the entries at or below the new depth and those
/// strictly above it.
pub proof fn lemma_spec_push_is_insert(q: Seq<QueueEntry>, e: QueueEntry, i: int)
    requires
        0 <= i <= q.len(),
        forall|j: int| 0 <= j < i ==> q[j].depth <= e.depth,
        forall|j: int| i <= j < q.len() ==> q[j].depth > e.depth,
    ensures
        spec_push(q, e) == q.insert(i, e),
    decreases q.len(),
{
    if q.len() > 0 && q[0].depth <= e.depth {
        assert(i >= 1);
        assert(forall|j: int|
            0 <= j < i - 1 ==> q.drop_first()[j].depth <= e.depth);
        assert(forall|j: int|
            i - 1 <= j < q.drop_first().len() ==> q.drop_first()[j].depth > e.depth);
        lemma_spec_push_is_insert(q.drop_first(), e, i - 1);
        assert(seq![q[0]] + q.drop_first().insert(i - 1, e) =~= q.insert(i, e));
    } else {
        assert(seq![e] + q =~= q.insert(0, e));
        if i != 0 {
            assert(q[0].depth <= e.depth);
        }
    }
}

/// Pushing keeps the sequence sorted.
pub proof fn lemma_push_sorted(q: Seq<QueueEntry>, e: QueueEntry, i: int)
    requires
        depth_sorted(q),
        0 <= i <= q.len(),
        forall|j: int| 0 <= j < i ==> q[j].depth <= e.depth,
        forall|j: int| i <= j < q.len() ==> q[j].depth > e.depth,
    ensures
        depth_sorted(q.insert(i, e)),
{
    let q2 = q.insert(i, e);
    assert forall|a: int, b: int| 0 <= a <= b < q2.len() implies q2[a].depth <= q2[b].depth by {
        if a < i && b > i {
            assert(q2[a] == q[a] && q2[b] == q[b - 1]);
        }
    }
}

/// The depth-ordered queue: pending cells, kept in the exact order in
/// which they will be popped.
pub struct DepthOrderedQueue {
    pub entries: Vec<QueueEntry>,
}

impl DepthOrderedQueue {
    /// The pending entries, front of the queue first.
    pub open spec fn model(self) -> Seq<QueueEntry> {
        self.entries@
    }

    /// Internal invariant: the pending entries stand in ascending depth
    /// order.
    pub open spec fn wf(self) -> bool {
        depth_sorted(self.entries@)
    }

    /// An empty queue.
    pub fn new() -> (r: DepthOrderedQueue)
        ensures
            r.wf(),
            r.model() == Seq::<QueueEntry>::empty(),
    {
        DepthOrderedQueue { entries: Vec::new() }
    }

    /// The number of pending entries.
    pub fn len(&self) -> (r: usize)
        ensures
            r == self.model().len(),
    {
        self.entries.len()
    }

    /// Whether no entry is pending.
    pub fn is_empty(&self) -> (r: bool)
        ensures
            r == (self.model().len() == 0),
    {
        self.entries.len() == 0
    }

    /// Appends cell (x, y, z) under ordering key `depth`.  Duplicates are
    /// permitted and create separate entries.
    pub fn push(&mut self, depth: u64, x: usize, y: usize, z: usize)
        requires
            old(self).wf(),
        ensures
            final(self).wf(),
            final(self).model() == spec_push(
                old(self).model(),
                QueueEntry { depth, x, y, z },
            ),
    {
        let e = QueueEntry { depth, x, y, z };
        let mut i: usize = self.entries.len();
        while i > 0 && self.entries[i - 1].depth > depth
            invariant
                i <= self.entries@.len(),
                self == old(self),
                forall|j: int| i <= j < self.entries@.len() ==> self.entries@[j].depth > depth,
            decreases i,
        {
            i = i - 1;
        }
        proof {
            assert(forall|j: int| 0 <= j < i ==> self.entries@[j].depth <= depth);
            lemma_spec_push_is_insert(self.entries@, e, i as int);
            lemma_push_sorted(self.entries@, e, i as int);
        }
        self.entries.insert(i, e);
    }

    /// Removes and returns the front cell: the earliest-pushed entry among
    /// those at the smallest pending depth.  Returns `None` exactly when
    /// the queue is exhausted.
    pub fn pop(&mut self) -> (r: Option<(usize, usize, usize)>)
        requires
            old(self).wf(),
        ensures
            final(self).wf(),
            old(self).model().len() == 0 ==> r is None && final(self).model()
                == old(self).model(),
            old(self).model().len() > 0 ==> r == Some(
                (
                    old(self).model()[0].x,
                    old(self).model()[0].y,
                    old(self).model()[0].z,
                ),
            ) && final(self).model() == old(self).model().drop_first(),
    {
        if self.entries.len() == 0 {
            None
        } else {
            let e = self.entries.remove(0);
            Some((e.x, e.y, e.z))
        }
    }
}

} // verus!
