//! The deduplicated work list of chunks whose mesh must be rebuilt.
use vstd::prelude::*;

verus! {

/// What one enqueue leaves behind: the coordinate is appended only when it
/// is not already pending.
pub open spec fn enqueue_spec(q: Seq<(i32, i32)>, c: (i32, i32)) -> Seq<(i32, i32)> {
    if q.contains(c) {
        q
    } else {
        q.push(c)
    }
}

/// Pending chunk coordinates, each held at most once, in arrival order.
pub struct ChunkQueue {
    items: Vec<(i32, i32)>,
}

impl ChunkQueue {
    /// The pending coordinates in arrival order.
    pub closed spec fn view(&self) -> Seq<(i32, i32)> {
        self.items@
    }

    /// No coordinate is pending twice.
    pub open spec fn wf(&self) -> bool {
        forall|i: int, j: int| 0 <= i < j < self@.len() ==> self@[i] != self@[j]
    }

    /// An empty queue.
    pub fn new() -> (r: ChunkQueue)
        ensures
            r.wf(),
            r@ == Seq::<(i32, i32)>::empty(),
    {
        ChunkQueue { items: Vec::new() }
    }

    /// Whether a coordinate is already pending.
    pub fn contains(&self, c: (i32, i32)) -> (r: bool)
        ensures
            r == self@.contains(c),
    {
        let n = self.items.len();
        let mut i: usize = 0;
        while i < n
            invariant
                n == self@.len(),
                i <= n,
                forall|j: int| 0 <= j < i ==> self@[j] != c,
            decreases n - i,
        {
            let e = self.items[i];
            if e.0 == c.0 && e.1 == c.1 {
                return true;
            }
            i = i + 1;
        }
        false
    }

    /// Record that a chunk needs remeshing; a coordinate already pending is
    /// left alone, so draining never yields duplicate work.
    pub fn enqueue(&mut self, c: (i32, i32))
        requires
            old(self).wf(),
        ensures
            final(self).wf(),
            final(self)@ == enqueue_spec(old(self)@, c),
            final(self)@.contains(c),
    {
        if !self.contains(c) {
            self.items.push(c);
            proof {
                assert(self@[self@.len() - 1] == c);
            }
        }
    }

    /// Hand out every pending coordinate, in arrival order, and clear the
    /// queue; a drained coordinate must be re-enqueued to be seen again.
    pub fn drain(&mut self) -> (r: Vec<(i32, i32)>)
        requires
            old(self).wf(),
        ensures
            final(self).wf(),
            r@ == old(self)@,
            final(self)@ == Seq::<(i32, i32)>::empty(),
    {
        let mut out: Vec<(i32, i32)> = Vec::new();
        core::mem::swap(&mut self.items, &mut out);
        out
    }
}

} // verus!
