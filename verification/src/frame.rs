//! The pool of physical page frames.

use vstd::prelude::*;
use crate::config::MemError;

verus! {

/// Hands out single physical frames, by page number, and takes them back.
///
/// Frames that were never handed out lie in `[current, end)`; frames that
/// came back wait in `recycled` and are handed out first.
pub struct FrameAllocator {
    pub(crate) start: usize,
    pub(crate) current: usize,
    pub(crate) end: usize,
    pub(crate) recycled: Vec<usize>,
}

impl FrameAllocator {
    /// The pool's bookkeeping is consistent: recycled frames were handed out
    /// before, and none waits twice.
    pub open(crate) spec fn wf(&self) -> bool {
        &&& self.start <= self.current <= self.end
        &&& forall|i: int|
            0 <= i < self.recycled@.len() ==> self.start <= #[trigger] self.recycled@[i]
                < self.current
        &&& forall|i: int, j: int|
            0 <= i < j < self.recycled@.len() ==> self.recycled@[i] != self.recycled@[j]
    }

    /// First frame number of the pool.
    pub open(crate) spec fn lower(&self) -> usize {
        self.start
    }

    /// One past the last frame number of the pool.
    pub open(crate) spec fn upper(&self) -> usize {
        self.end
    }

    /// The frame can be handed out.
    pub open(crate) spec fn is_free(&self, ppn: usize) -> bool {
        self.current <= ppn < self.end || self.recycled@.contains(ppn)
    }

    /// The frame belongs to the pool and is in use.
    pub open(crate) spec fn is_allocated(&self, ppn: usize) -> bool {
        self.start <= ppn < self.current && !self.recycled@.contains(ppn)
    }

    /// Number of frames that can be handed out.
    pub open(crate) spec fn free_count(&self) -> nat {
        (self.end - self.current + self.recycled@.len()) as nat
    }

    /// A pool over the frames `[start, end)`, all of them free.
    pub fn new(start: usize, end: usize) -> (r: Self)
        requires
            start <= end,
        ensures
            r.wf(),
            r.lower() == start,
            r.upper() == end,
            r.free_count() == end - start,
            forall|p: usize| r.is_free(p) <==> start <= p < end,
            forall|p: usize| !r.is_allocated(p),
    {
        FrameAllocator { start, current: start, end, recycled: Vec::new() }
    }

    /// Whether at least `n` frames are free.
    pub fn has_free(&self, n: usize) -> (r: bool)
        requires
            self.wf(),
        ensures
            r == (self.free_count() >= n),
    {
        let fresh: usize = self.end - self.current;
        if fresh >= n {
            true
        } else {
            self.recycled.len() >= n - fresh
        }
    }

    /// Hands out one free frame, or reports `OutOfMemory` when none is left.
    pub fn alloc_frame(&mut self) -> (r: Result<usize, MemError>)
        requires
            old(self).wf(),
        ensures
            final(self).wf(),
            final(self).lower() == old(self).lower(),
            final(self).upper() == old(self).upper(),
            r is Err <==> old(self).free_count() == 0,
            r is Err ==> r == Err::<usize, MemError>(MemError::OutOfMemory)
                && *final(self) == *old(self),
            r is Ok ==> {
                let p = r->Ok_0;
                &&& old(self).is_free(p)
                &&& final(self).is_allocated(p)
                &&& final(self).free_count() == old(self).free_count() - 1
                &&& forall|q: usize|
                    q != p ==> (final(self).is_free(q) == old(self).is_free(q))
                        && (final(self).is_allocated(q) == old(self).is_allocated(q))
            },
    {
        let n: usize = self.recycled.len();
        if n > 0 {
            let ghost before = self.recycled@;
            let p: usize = self.recycled.pop().unwrap();
            proof {
                assert(before[n as int - 1] == p);
                assert(self.recycled@ =~= before.take(n as int - 1));
                assert forall|q: usize| q != p implies (self.is_free(q) == old(self).is_free(q))
                    && (self.is_allocated(q) == old(self).is_allocated(q)) by {
                    if before.contains(q) {
                        let i = choose|i: int| 0 <= i < before.len() && before[i] == q;
                        assert(self.recycled@[i] == q);
                    }
                }
                assert(!self.recycled@.contains(p));
            }
            Ok(p)
        } else if self.current < self.end {
            let p: usize = self.current;
            self.current = p + 1;
            Ok(p)
        } else {
            Err(MemError::OutOfMemory)
        }
    }

    /// Takes back a frame that is in use. Handing in a frame that is not in
    /// use is the caller's error.
    pub fn dealloc_frame(&mut self, ppn: usize)
        requires
            old(self).wf(),
            old(self).is_allocated(ppn),
        ensures
            final(self).wf(),
            final(self).lower() == old(self).lower(),
            final(self).upper() == old(self).upper(),
            final(self).is_free(ppn),
            final(self).free_count() == old(self).free_count() + 1,
            forall|q: usize|
                q != ppn ==> (final(self).is_free(q) == old(self).is_free(q))
                    && (final(self).is_allocated(q) == old(self).is_allocated(q)),
    {
        let ghost before = self.recycled@;
        self.recycled.push(ppn);
        proof {
            assert(self.recycled@[before.len() as int] == ppn);
            assert forall|q: usize| q != ppn implies (self.is_free(q) == old(self).is_free(q)) by {
                if before.contains(q) {
                    let i = choose|i: int| 0 <= i < before.len() && before[i] == q;
                    assert(self.recycled@[i] == q);
                }
            }
        }
    }
}

} // verus!
