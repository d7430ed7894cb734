//! Identifier and resource allocators: the recycling id allocator behind
//! pids and tids, the stack allocator behind physical frames, and the
//! bitmap allocator behind inode and data-block numbers.

use vstd::prelude::*;

verus! {

/// Allocates small integer ids, reusing freed ones last-in-first-out.
pub struct RecycleAllocator {
    current: usize,
    recycled: Vec<usize>,
}

impl RecycleAllocator {
    /// Every recycled id was handed out before, and no id is in the free
    /// list twice.
    pub closed spec fn wf(&self) -> bool {
        &&& forall|k: int|
            0 <= k < self.recycled@.len() ==> #[trigger] self.recycled@[k] < self.current
        &&& self.recycled@.no_duplicates()
    }

    /// The watermark: ids at or above it were never handed out.
    pub closed spec fn spec_current(&self) -> nat {
        self.current as nat
    }

    /// The free list, most recently freed id last.
    pub closed spec fn spec_recycled(&self) -> Seq<usize> {
        self.recycled@
    }

    /// An id is live when it was handed out and not freed since.
    pub open spec fn is_live(&self, id: usize) -> bool {
        id < self.spec_current() && !self.spec_recycled().contains(id)
    }

    /// What well-formedness guarantees: every free-listed id lies below
    /// the watermark, and no id is listed twice.
    pub proof fn lemma_wf_bounds(&self)
        requires
            self.wf(),
        ensures
            forall|k: int|
                0 <= k < self.spec_recycled().len() ==> (#[trigger] self.spec_recycled()[
                    k] as nat) < self.spec_current(),
            self.spec_recycled().no_duplicates(),
    {
    }

    /// A fresh allocator; no id handed out yet.
    pub fn new() -> (r: RecycleAllocator)
        ensures
            r.wf(),
            r.spec_current() == 0,
            r.spec_recycled().len() == 0,
    {
        RecycleAllocator { current: 0, recycled: Vec::new() }
    }

    /// Hand out an id: the most recently freed one, or a fresh one from the
    /// watermark.
    pub fn allocate(&mut self) -> (id: usize)
        requires
            old(self).wf(),
            old(self).spec_current() < usize::MAX,
        ensures
            final(self).wf(),
            final(self).is_live(id),
            old(self).spec_recycled().len() > 0 ==> {
                &&& id == old(self).spec_recycled().last()
                &&& final(self).spec_recycled() == old(self).spec_recycled().drop_last()
                &&& final(self).spec_current() == old(self).spec_current()
            },
            old(self).spec_recycled().len() == 0 ==> {
                &&& id == old(self).spec_current()
                &&& final(self).spec_recycled() == old(self).spec_recycled()
                &&& final(self).spec_current() == old(self).spec_current() + 1
            },
    {
        if let Some(id) = self.recycled.pop() {
            proof {
                assert(!self.recycled@.contains(id)) by {
                    if self.recycled@.contains(id) {
                        let k = choose|k: int|
                            0 <= k < self.recycled@.len() && self.recycled@[k] == id;
                        assert(old(self).spec_recycled()[k] == id);
                        assert(old(self).spec_recycled().last() == id);
                    }
                }
            }
            id
        } else {
            let id = self.current;
            self.current += 1;
            id
        }
    }

    /// Return a live id to the free list; it is reused first.
    pub fn dealloc(&mut self, id: usize)
        requires
            old(self).wf(),
            old(self).is_live(id),
        ensures
            final(self).wf(),
            final(self).spec_recycled() == old(self).spec_recycled().push(id),
            final(self).spec_current() == old(self).spec_current(),
    {
        self.recycled.push(id);
    }
}

/// Law: freeing an id and allocating again returns that id — the free list
/// is last-in-first-out.
pub proof fn lemma_recycle_lifo(before: RecycleAllocator, after: RecycleAllocator, id: usize)
    requires
        before.wf(),
        before.is_live(id),
        // what `dealloc(id)` ensures of the state it leaves behind
        after.spec_recycled() == before.spec_recycled().push(id),
        after.spec_current() == before.spec_current(),
    ensures
        after.spec_recycled().len() > 0,
        after.spec_recycled().last() == id,
{
}

/// Hands out physical page numbers from `[current, end)`, reusing freed
/// frames last-in-first-out.
pub struct FrameAllocator {
    current: usize,
    end: usize,
    recycled: Vec<usize>,
}

impl FrameAllocator {
    /// Every recycled frame lies below the watermark, inside the range,
    /// and no frame is in the free list twice.
    pub closed spec fn wf(&self) -> bool {
        &&& self.current <= self.end
        &&& forall|k: int|
            0 <= k < self.recycled@.len() ==> #[trigger] self.recycled@[k] < self.current
        &&& self.recycled@.no_duplicates()
    }

    /// The watermark: frames at or above it were never handed out.
    pub closed spec fn spec_current(&self) -> nat {
        self.current as nat
    }

    /// One past the last frame this allocator manages.
    pub closed spec fn spec_end(&self) -> nat {
        self.end as nat
    }

    /// The free list, most recently freed frame last.
    pub closed spec fn spec_recycled(&self) -> Seq<usize> {
        self.recycled@
    }

    /// A frame is live when it was handed out and not freed since.
    pub open spec fn is_live(&self, ppn: usize) -> bool {
        ppn < self.spec_current() && !self.spec_recycled().contains(ppn)
    }

    /// How many frames are still free: the free list plus the untouched
    /// tail of the range.
    pub open spec fn spec_available(&self) -> int {
        self.spec_recycled().len() + self.spec_end() - self.spec_current()
    }

    /// An allocator over the physical page numbers `[start, end)`.
    pub fn new(start: usize, end: usize) -> (r: FrameAllocator)
        requires
            start <= end,
        ensures
            r.wf(),
            r.spec_current() == start,
            r.spec_end() == end,
            r.spec_recycled().len() == 0,
    {
        FrameAllocator { current: start, end, recycled: Vec::new() }
    }

    /// Hand out a frame: the most recently freed one, or the watermark.
    /// Returns nothing exactly when the range is exhausted.
    pub fn allocate(&mut self) -> (r: Option<usize>)
        requires
            old(self).wf(),
        ensures
            final(self).wf(),
            final(self).spec_end() == old(self).spec_end(),
            r is Some ==> final(self).spec_available() == old(self).spec_available() - 1,
            r is None <==> old(self).spec_available() == 0,
            r is None ==> final(self).spec_recycled() == old(self).spec_recycled()
                && final(self).spec_current() == old(self).spec_current(),
            r matches Some(ppn) ==> final(self).is_live(ppn) && ppn < old(self).spec_end(),
            old(self).spec_recycled().len() > 0 ==> (r matches Some(ppn) && {
                &&& ppn == old(self).spec_recycled().last()
                &&& final(self).spec_recycled() == old(self).spec_recycled().drop_last()
                &&& final(self).spec_current() == old(self).spec_current()
            }),
            old(self).spec_recycled().len() == 0 && old(self).spec_current() < old(
                self,
            ).spec_end() ==> (r matches Some(ppn) && {
                &&& ppn == old(self).spec_current()
                &&& final(self).spec_recycled() == old(self).spec_recycled()
                &&& final(self).spec_current() == old(self).spec_current() + 1
            }),
    {
        if let Some(ppn) = self.recycled.pop() {
            proof {
                assert(!self.recycled@.contains(ppn)) by {
                    if self.recycled@.contains(ppn) {
                        let k = choose|k: int|
                            0 <= k < self.recycled@.len() && self.recycled@[k] == ppn;
                        assert(old(self).spec_recycled()[k] == ppn);
                        assert(old(self).spec_recycled().last() == ppn);
                    }
                }
            }
            Some(ppn)
        } else if self.current == self.end {
            None
        } else {
            let ppn = self.current;
            self.current += 1;
            Some(ppn)
        }
    }

    /// Return a live frame; it is reused first. Freeing a frame that was
    /// never handed out, or twice, is a kernel bug and is ruled out here.
    pub fn dealloc(&mut self, ppn: usize)
        requires
            old(self).wf(),
            old(self).is_live(ppn),
        ensures
            final(self).wf(),
            final(self).spec_recycled() == old(self).spec_recycled().push(ppn),
            final(self).spec_current() == old(self).spec_current(),
            final(self).spec_end() == old(self).spec_end(),
    {
        self.recycled.push(ppn);
    }
}

/// Law: on the frame allocator, freeing a frame and allocating again
/// returns that frame — allocation is last-in-first-out.
pub proof fn lemma_frame_lifo(before: FrameAllocator, after: FrameAllocator, ppn: usize)
    requires
        before.wf(),
        before.is_live(ppn),
        // what `dealloc(ppn)` ensures of the state it leaves behind
        after.spec_recycled() == before.spec_recycled().push(ppn),
        after.spec_current() == before.spec_current(),
    ensures
        after.spec_recycled().len() > 0,
        after.spec_recycled().last() == ppn,
{
}

} // verus!
