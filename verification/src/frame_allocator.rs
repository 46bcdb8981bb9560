use vstd::prelude::*;

verus! {

/// Hands out physical page frames: a bump pointer over `[current, end)` and a
/// stack of frames that were given back.
pub struct FrameAllocator {
    pub current: u64,
    pub end: u64,
    pub recycled: Vec<u64>,
}

/// What `allocate` does to the allocator `old`, giving `new` and the result
/// `r`: the last frame given back comes out first; with none given back, the
/// next fresh frame; with none left, nothing, and nothing changes.
pub open spec fn allocate_effect(old: FrameAllocator, new: FrameAllocator, r: Option<u64>) -> bool {
    &&& new.end == old.end
    &&& if old.recycled@.len() > 0 {
        &&& r == Some(old.recycled@.last())
        &&& new.recycled@ == old.recycled@.drop_last()
        &&& new.current == old.current
    } else if old.current < old.end {
        &&& r == Some(old.current)
        &&& new.recycled@ == old.recycled@
        &&& new.current == old.current + 1
    } else {
        &&& r is None
        &&& new == old
    }
}

/// What `deallocate(ppn)` does to the allocator `old`, giving `new`: `ppn`
/// goes on top of the frames given back.
pub open spec fn deallocate_effect(old: FrameAllocator, new: FrameAllocator, ppn: u64) -> bool {
    &&& new.current == old.current
    &&& new.end == old.end
    &&& new.recycled@ == old.recycled@.push(ppn)
}

impl FrameAllocator {
    /// Every given-back frame lies below `current`, and none is given back twice.
    pub open spec fn wf(&self) -> bool {
        &&& self.current <= self.end
        &&& forall|i: int| 0 <= i < self.recycled@.len() ==> #[trigger] self.recycled@[i] < self.current
        &&& forall|i: int, j: int|
            0 <= i < j < self.recycled@.len() ==> self.recycled@[i] != self.recycled@[j]
    }

    /// The frame `ppn` is in use: handed out and not given back.
    pub open spec fn is_allocated(&self, ppn: u64) -> bool {
        ppn < self.current && !self.recycled@.contains(ppn)
    }

    /// Number of frames that can still be handed out.
    pub open spec fn free_count(&self) -> nat {
        (self.end - self.current + self.recycled@.len()) as nat
    }

    /// An allocator over the frames `[start, end)`, none of them in use.
    pub fn new(start: u64, end: u64) -> (r: FrameAllocator)
        requires
            start <= end,
        ensures
            r.wf(),
            r.current == start,
            r.end == end,
            r.recycled@ == Seq::<u64>::empty(),
            r.free_count() == end - start,
    {
        FrameAllocator { current: start, end, recycled: Vec::new() }
    }

    /// Takes a frame: the last one given back if there is one, else the next
    /// fresh one; `None` when every frame is in use.
    pub fn allocate(&mut self) -> (r: Option<u64>)
        requires
            old(self).wf(),
        ensures
            final(self).wf(),
            allocate_effect(*old(self), *final(self), r),
            r is None <==> old(self).free_count() == 0,
            r matches Some(ppn) ==> {
                &&& !old(self).is_allocated(ppn)
                &&& final(self).is_allocated(ppn)
                &&& final(self).free_count() + 1 == old(self).free_count()
                &&& forall|p: u64| #[trigger]
                    final(self).is_allocated(p) <==> (old(self).is_allocated(p) || p == ppn)
            },
    {
        let n = self.recycled.len();
        if n > 0 {
            let ppn = self.recycled.pop().unwrap();
            proof {
                let s = old(self).recycled@;
                assert(self.recycled@ =~= s.drop_last());
                assert forall|p: u64| #[trigger]
                    self.is_allocated(p) <==> (old(self).is_allocated(p) || p == ppn) by {
                    if s.contains(p) && p != ppn {
                        let k = choose|k: int| 0 <= k < s.len() && s[k] == p;
                        assert(k != s.len() - 1);
                        assert(self.recycled@[k] == p);
                    }
                    if self.recycled@.contains(p) {
                        let k = choose|k: int| 0 <= k < self.recycled@.len() && self.recycled@[k] == p;
                        assert(s[k] == p);
                    }
                }
                assert(!self.recycled@.contains(ppn)) by {
                    if self.recycled@.contains(ppn) {
                        let k = choose|k: int| 0 <= k < self.recycled@.len() && self.recycled@[k] == ppn;
                        assert(s[k] == s[s.len() - 1]);
                    }
                }
            }
            Some(ppn)
        } else if self.current == self.end {
            None
        } else {
            let ppn = self.current;
            self.current = self.current + 1;
            Some(ppn)
        }
    }

    /// Gives the frame `ppn` back, so that the next `allocate` hands it out again.
    pub fn deallocate(&mut self, ppn: u64)
        requires
            old(self).wf(),
            old(self).is_allocated(ppn),
        ensures
            final(self).wf(),
            deallocate_effect(*old(self), *final(self), ppn),
            final(self).free_count() == old(self).free_count() + 1,
            !final(self).is_allocated(ppn),
            forall|p: u64| #[trigger]
                final(self).is_allocated(p) <==> (old(self).is_allocated(p) && p != ppn),
    {
        self.recycled.push(ppn);
        proof {
            let s = old(self).recycled@;
            assert(self.recycled@[s.len() as int] == ppn);
            assert forall|p: u64| #[trigger]
                self.is_allocated(p) <==> (old(self).is_allocated(p) && p != ppn) by {
                if self.recycled@.contains(p) {
                    let k = choose|k: int| 0 <= k < self.recycled@.len() && self.recycled@[k] == p;
                    if k < s.len() {
                        assert(s[k] == p);
                    }
                }
                if s.contains(p) {
                    let k = choose|k: int| 0 <= k < s.len() && s[k] == p;
                    assert(self.recycled@[k] == p);
                }
            }
        }
    }
}

/// A frame given back by `deallocate` is the frame that the next `allocate`
/// hands out, and the allocator is then as it was before the frame was given
/// back.
pub proof fn law_allocate_returns_deallocated(
    a: FrameAllocator,
    b: FrameAllocator,
    c: FrameAllocator,
    ppn: u64,
    r: Option<u64>,
)
    requires
        a.wf(),
        a.is_allocated(ppn),
        deallocate_effect(a, b, ppn),
        allocate_effect(b, c, r),
    ensures
        r == Some(ppn),
        c.current == a.current,
        c.end == a.end,
        c.recycled@ == a.recycled@,
        forall|p: u64| #[trigger] c.is_allocated(p) <==> a.is_allocated(p),
{
    assert(c.recycled@ =~= a.recycled@);
}

} // verus!
