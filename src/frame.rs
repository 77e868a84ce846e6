use vstd::prelude::*;
use crate::address::{PhysicalPageNumber, PPN_LIMIT};

verus! {

/// What can go wrong while building page tables without a kernel bug.
#[derive(Clone, Copy, PartialEq, Eq, Structural, Debug)]
pub enum MemoryError {
    /// The frame allocator has no free frame left.
    OutOfFrames,
}

/// Exclusive ownership of one allocated physical frame.
#[derive(Debug)]
pub struct FrameTracker {
    ppn: PhysicalPageNumber,
}

impl FrameTracker {
    pub closed spec fn spec_ppn(&self) -> nat {
        self.ppn@
    }

    /// The frame's physical page number.
    pub fn page_number(&self) -> (r: PhysicalPageNumber)
        ensures
            r.0 == self.spec_ppn(),
    {
        self.ppn
    }
}

impl PhysicalPageNumber {
    pub open spec fn view(self) -> nat {
        self.0 as nat
    }
}

/// Hands out the frames of `[start, end)`: never-used ones in increasing
/// order, and returned ones last-in first-out.
pub struct FrameAllocator {
    start: u64,
    end: u64,
    current: u64,
    recycled: Vec<u64>,
}

impl FrameAllocator {
    pub closed spec fn spec_start(&self) -> nat {
        self.start as nat
    }

    pub closed spec fn spec_end(&self) -> nat {
        self.end as nat
    }

    /// The frames that can still be handed out.
    pub closed spec fn free_set(&self) -> Set<nat> {
        Set::new(|p: nat| (self.current <= p < self.end) || (p < self.current && self.recycled@.contains(p as u64)))
    }

    /// How many frames can still be handed out.
    pub closed spec fn free_count(&self) -> nat {
        self.recycled@.len() + (self.end - self.current) as nat
    }

    pub closed spec fn wf(&self) -> bool {
        &&& self.start <= self.current <= self.end <= PPN_LIMIT
        &&& self.recycled@.no_duplicates()
        &&& forall|i: int|
            0 <= i < self.recycled@.len() ==> self.start <= #[trigger] self.recycled@[i]
                < self.current
    }

    /// Every free frame lies in the allocator's range.
    pub proof fn lemma_free_in_range(&self, p: nat)
        requires
            self.wf(),
            self.free_set().contains(p),
        ensures
            self.spec_start() <= p < self.spec_end(),
            p < PPN_LIMIT,
    {
        if !(self.current <= p < self.end) {
            let i = self.recycled@.index_of(p as u64);
            assert(self.recycled@[i] == p as u64);
        }
    }

    /// An allocator for the frames `[start, end)`, all free.
    pub fn new(start: PhysicalPageNumber, end: PhysicalPageNumber) -> (r: FrameAllocator)
        requires
            start.0 <= end.0 <= PPN_LIMIT,
        ensures
            r.wf(),
            r.spec_start() == start@,
            r.spec_end() == end@,
            r.free_count() == end@ - start@,
            r.free_set() == Set::new(|p: nat| start@ <= p < end@),
    {
        let r = FrameAllocator { start: start.0, end: end.0, current: start.0, recycled: Vec::new() };
        assert(r.free_set() =~= Set::new(|p: nat| start@ <= p < end@));
        r
    }

    /// Takes one free frame; fails exactly when none is left.
    pub fn allocate(&mut self) -> (r: Result<FrameTracker, MemoryError>)
        requires
            old(self).wf(),
        ensures
            final(self).wf(),
            final(self).spec_start() == old(self).spec_start(),
            final(self).spec_end() == old(self).spec_end(),
            old(self).free_count() == 0 <==> r is Err,
            r is Err ==> *final(self) == *old(self),
            r matches Ok(f) ==> {
                &&& old(self).free_set().contains(f.spec_ppn())
                &&& final(self).free_set() == old(self).free_set().remove(f.spec_ppn())
                &&& final(self).free_count() + 1 == old(self).free_count()
                &&& f.spec_ppn() < PPN_LIMIT
            },
    {
        let ghost pre = *self;
        if self.recycled.len() > 0 {
            let p = self.recycled.pop().unwrap();
            proof {
                let n = pre.recycled@.len() - 1;
                assert(pre.recycled@[n as int] == p);
                assert(self.recycled@ == pre.recycled@.drop_last());
                assert(!self.recycled@.contains(p)) by {
                    if self.recycled@.contains(p) {
                        let j = self.recycled@.index_of(p);
                        assert(pre.recycled@[j] == pre.recycled@[n as int]);
                    }
                }
                assert forall|q: nat| #[trigger] self.free_set().contains(q) == pre.free_set().remove(p as nat).contains(q) by {
                    if q < self.current {
                        let x = q as u64;
                        if self.recycled@.contains(x) {
                            let j = self.recycled@.index_of(x);
                            assert(pre.recycled@[j] == x);
                        }
                        if pre.recycled@.contains(x) && x != p {
                            let j = pre.recycled@.index_of(x);
                            assert(j != n);
                            assert(self.recycled@[j] == x);
                        }
                    }
                }
                assert(self.free_set() =~= pre.free_set().remove(p as nat));
                assert(pre.recycled@.contains(p));
            }
            Ok(FrameTracker { ppn: PhysicalPageNumber(p) })
        } else if self.current < self.end {
            let p = self.current;
            self.current = self.current + 1;
            proof {
                assert forall|q: nat| #[trigger] self.free_set().contains(q) == pre.free_set().remove(p as nat).contains(q) by {
                    if q == p as nat && pre.recycled@.contains(p) {
                        let j = pre.recycled@.index_of(p);
                        assert(pre.recycled@[j] == p);
                    }
                }
                assert(self.free_set() =~= pre.free_set().remove(p as nat));
            }
            Ok(FrameTracker { ppn: PhysicalPageNumber(p) })
        } else {
            Err(MemoryError::OutOfFrames)
        }
    }

    /// Takes a frame back; it becomes free again.
    pub fn deallocate(&mut self, frame: FrameTracker)
        requires
            old(self).wf(),
            old(self).spec_start() <= frame.spec_ppn() < old(self).spec_end(),
            !old(self).free_set().contains(frame.spec_ppn()),
        ensures
            final(self).wf(),
            final(self).spec_start() == old(self).spec_start(),
            final(self).spec_end() == old(self).spec_end(),
            final(self).free_set() == old(self).free_set().insert(frame.spec_ppn()),
            final(self).free_count() == old(self).free_count() + 1,
    {
        let ghost pre = *self;
        let p = frame.ppn.0;
        assert(!pre.recycled@.contains(p));
        assert(p < self.current);
        self.recycled.push(p);
        proof {
            assert(self.recycled@ == pre.recycled@.push(p));
            assert forall|q: nat| #[trigger] self.free_set().contains(q) == pre.free_set().insert(p as nat).contains(q) by {
                if q < self.current {
                    let x = q as u64;
                    if self.recycled@.contains(x) && x != p {
                        let j = self.recycled@.index_of(x);
                        assert(j < pre.recycled@.len());
                        assert(pre.recycled@[j] == x);
                    }
                    if pre.recycled@.contains(x) {
                        let j = pre.recycled@.index_of(x);
                        assert(self.recycled@[j] == x);
                    }
                    if x == p {
                        assert(self.recycled@[pre.recycled@.len() as int] == p);
                    }
                }
            }
            assert(self.free_set() =~= pre.free_set().insert(p as nat));
        }
    }
}

} // verus!
