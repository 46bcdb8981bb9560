use vstd::prelude::*;
use crate::config::{VPN_SPACE, PTES_PER_TABLE};
use crate::frame_allocator::FrameAllocator;

verus! {

/// Valid bit of a page-table entry.
pub const PTE_V: u8 = 1;
/// Readable bit of a page-table entry.
pub const PTE_R: u8 = 2;
/// Writable bit of a page-table entry.
pub const PTE_W: u8 = 4;
/// Executable bit of a page-table entry.
pub const PTE_X: u8 = 8;
/// User-accessible bit of a page-table entry.
pub const PTE_U: u8 = 16;

/// One leaf entry of an Sv39 page table: a physical page number and flag bits.
#[derive(Clone, Copy, Debug, PartialEq, Eq, Structural)]
pub struct PageTableEntry {
    pub ppn: u64,
    pub flags: u8,
}

impl PageTableEntry {
    /// The all-zero entry, which maps nothing.
    pub open spec fn spec_empty() -> PageTableEntry {
        PageTableEntry { ppn: 0, flags: 0 }
    }

    /// The entry has its valid bit set.
    pub open spec fn valid(self) -> bool {
        self.flags & PTE_V != 0
    }

    /// The all-zero entry, which maps nothing.
    pub fn empty() -> (r: PageTableEntry)
        ensures
            r == PageTableEntry::spec_empty(),
            !r.valid(),
    {
        assert(0u8 & 1u8 == 0u8) by (bit_vector);
        PageTableEntry { ppn: 0, flags: 0 }
    }

    /// Whether the valid bit is set.
    pub fn is_valid(&self) -> (r: bool)
        ensures
            r == self.valid(),
    {
        self.flags & PTE_V != 0
    }

    /// Physical page number that the entry points to.
    pub fn ppn(&self) -> (r: u64)
        ensures
            r == self.ppn,
    {
        self.ppn
    }
}

/// The flags of an entry made from the permission bits `perm`: those bits and
/// the valid bit.
pub open spec fn entry_flags(perm: u8) -> u8 {
    perm | PTE_V
}

/// Entry flags made from permission bits always carry the valid bit.
pub proof fn lemma_entry_flags_valid(perm: u8)
    ensures
        (PageTableEntry { ppn: 0, flags: entry_flags(perm) }).valid(),
        forall|ppn: u64| #[trigger] (PageTableEntry { ppn, flags: entry_flags(perm) }).valid(),
{
    assert((perm | 1u8) & 1u8 != 0u8) by (bit_vector);
}

/// A leaf entry of the page table whose root frame is `root`, for the page `vpn`.
#[derive(Clone, Copy)]
pub struct Mapping {
    pub root: u64,
    pub vpn: u64,
    pub pte: PageTableEntry,
}

/// Index of the last-level page-table node that covers the page `vpn`.
pub open spec fn leaf_index(vpn: u64) -> u64 {
    (vpn / PTES_PER_TABLE as u64) as u64
}

/// Physical memory as address translation sees it: the frame allocator, the
/// root frame of every page table, the last-level nodes that exist, and every
/// valid leaf entry.
///
/// Each valid leaf entry owns the data frame it points to, and each page table
/// owns its root frame; interior nodes are kept as `(root, leaf_index)` pairs.
pub struct PhysMemory {
    pub frames: FrameAllocator,
    pub mappings: Vec<Mapping>,
    pub leaf_tables: Vec<(u64, u64)>,
    pub roots: Vec<u64>,
}

impl PhysMemory {
    /// Some leaf entry of the table `root` is for the page `vpn`.
    pub open spec fn has_mapping(self, root: u64, vpn: u64) -> bool {
        exists|i: int|
            0 <= i < self.mappings@.len() && (#[trigger] self.mappings@[i]).root == root
                && self.mappings@[i].vpn == vpn
    }

    /// Position of the leaf entry of `root` for `vpn`.
    pub open spec fn index_of(self, root: u64, vpn: u64) -> int {
        choose|i: int|
            0 <= i < self.mappings@.len() && (#[trigger] self.mappings@[i]).root == root
                && self.mappings@[i].vpn == vpn
    }

    /// The valid leaf entry of the table `root` for the page `vpn`, if any.
    pub open spec fn entry(self, root: u64, vpn: u64) -> Option<PageTableEntry> {
        if self.has_mapping(root, vpn) {
            Some(self.mappings@[self.index_of(root, vpn)].pte)
        } else {
            None
        }
    }

    /// The last-level node that would hold `vpn` exists in the table `root`.
    pub open spec fn has_leaf(self, root: u64, vpn: u64) -> bool {
        self.leaf_tables@.contains((root, leaf_index(vpn)))
    }

    /// What a walk of the table `root` for `vpn` finds: the valid entry, or an
    /// empty entry where the last-level node exists, or nothing at all.
    pub open spec fn spec_translate(self, root: u64, vpn: u64) -> Option<PageTableEntry> {
        match self.entry(root, vpn) {
            Some(pte) => Some(pte),
            None => if self.has_leaf(root, vpn) {
                Some(PageTableEntry::spec_empty())
            } else {
                None
            },
        }
    }

    /// `root` is the root frame of a live page table.
    pub open spec fn is_root(self, root: u64) -> bool {
        self.roots@.contains(root)
    }

    /// The page `vpn` of the table `root` is mapped by a valid entry.
    pub open spec fn is_mapped(self, root: u64, vpn: u64) -> bool {
        self.entry(root, vpn) is Some
    }

    /// No two leaf entries are for the same page of the same table.
    pub open spec fn keys_unique(self) -> bool {
        forall|i: int, j: int|
            0 <= i < j < self.mappings@.len() ==> !(#[trigger] self.mappings@[i].root
                == #[trigger] self.mappings@[j].root && self.mappings@[i].vpn
                == self.mappings@[j].vpn)
    }

    /// Well-formedness: entries are unique, valid and inside live tables, and
    /// every frame that a table or an entry owns is in use and owned once.
    pub open spec fn wf(self) -> bool {
        &&& self.frames.wf()
        &&& self.frames.end <= 0x1000_0000_0000
        &&& self.keys_unique()
        &&& forall|i: int, j: int|
            0 <= i < j < self.mappings@.len() ==> #[trigger] self.mappings@[i].pte.ppn
                != #[trigger] self.mappings@[j].pte.ppn
        &&& forall|i: int|
            0 <= i < self.mappings@.len() ==> {
                let m = #[trigger] self.mappings@[i];
                &&& m.pte.valid()
                &&& m.vpn < VPN_SPACE
                &&& self.roots@.contains(m.root)
                &&& self.leaf_tables@.contains((m.root, leaf_index(m.vpn)))
                &&& self.frames.is_allocated(m.pte.ppn)
                &&& !self.roots@.contains(m.pte.ppn)
            }
        &&& forall|i: int, j: int|
            0 <= i < j < self.roots@.len() ==> self.roots@[i] != self.roots@[j]
        &&& forall|i: int| 0 <= i < self.roots@.len() ==> self.frames.is_allocated(#[trigger] self.roots@[i])
        &&& forall|i: int|
            0 <= i < self.leaf_tables@.len() ==> self.roots@.contains((#[trigger] self.leaf_tables@[i]).0)
    }

    /// Number of frames that can still be handed out.
    pub open spec fn free_frames(self) -> nat {
        self.frames.free_count()
    }

    /// Under unique keys, the entry for a key is the one stored at its position.
    pub proof fn lemma_entry_at(self, i: int)
        requires
            self.keys_unique(),
            0 <= i < self.mappings@.len(),
        ensures
            self.entry(self.mappings@[i].root, self.mappings@[i].vpn) == Some(self.mappings@[i].pte),
    {
        let m = self.mappings@[i];
        assert(self.has_mapping(m.root, m.vpn));
        let j = self.index_of(m.root, m.vpn);
        if j != i {
            if i < j {
                assert(!(self.mappings@[i].root == self.mappings@[j].root
                    && self.mappings@[i].vpn == self.mappings@[j].vpn));
            } else {
                assert(!(self.mappings@[j].root == self.mappings@[i].root
                    && self.mappings@[j].vpn == self.mappings@[i].vpn));
            }
        }
    }

    /// An empty memory over the frames `[start, end)`: no table, no entry.
    pub fn new(start: u64, end: u64) -> (r: PhysMemory)
        requires
            start <= end <= 0x1000_0000_0000,
        ensures
            r.wf(),
            r.frames.current == start,
            r.frames.end == end,
            r.free_frames() == end - start,
            r.roots@ == Seq::<u64>::empty(),
            r.mappings@ == Seq::<Mapping>::empty(),
            r.leaf_tables@ == Seq::<(u64, u64)>::empty(),
            forall|root: u64, vpn: u64| #[trigger] r.spec_translate(root, vpn) is None,
    {
        PhysMemory {
            frames: FrameAllocator::new(start, end),
            mappings: Vec::new(),
            leaf_tables: Vec::new(),
            roots: Vec::new(),
        }
    }

    /// Position of the leaf entry of `root` for `vpn`, if there is one.
    fn find(&self, root: u64, vpn: u64) -> (r: Option<usize>)
        requires
            self.keys_unique(),
        ensures
            match r {
                Some(i) => {
                    &&& i < self.mappings@.len()
                    &&& self.mappings@[i as int].root == root
                    &&& self.mappings@[i as int].vpn == vpn
                    &&& self.entry(root, vpn) == Some(self.mappings@[i as int].pte)
                },
                None => !self.has_mapping(root, vpn),
            },
    {
        let mut i: usize = 0;
        while i < self.mappings.len()
            invariant
                self.keys_unique(),
                i <= self.mappings@.len(),
                forall|k: int|
                    0 <= k < i ==> !((#[trigger] self.mappings@[k]).root == root
                        && self.mappings@[k].vpn == vpn),
            decreases self.mappings@.len() - i,
        {
            if self.mappings[i].root == root && self.mappings[i].vpn == vpn {
                proof {
                    self.lemma_entry_at(i as int);
                }
                return Some(i);
            }
            i = i + 1;
        }
        None
    }

    /// Whether the last-level node for `vpn` exists in the table `root`.
    fn leaf_exists(&self, root: u64, vpn: u64) -> (r: bool)
        ensures
            r == self.has_leaf(root, vpn),
    {
        let idx = vpn / PTES_PER_TABLE;
        let mut i: usize = 0;
        while i < self.leaf_tables.len()
            invariant
                i <= self.leaf_tables@.len(),
                idx == leaf_index(vpn),
                forall|k: int| 0 <= k < i ==> self.leaf_tables@[k] != (root, idx),
            decreases self.leaf_tables@.len() - i,
        {
            let (r0, i0) = self.leaf_tables[i];
            if r0 == root && i0 == idx {
                assert(self.leaf_tables@[i as int] == (root, idx));
                return true;
            }
            i = i + 1;
        }
        proof {
            if self.leaf_tables@.contains((root, idx)) {
                let k = choose|k: int|
                    0 <= k < self.leaf_tables@.len() && self.leaf_tables@[k] == (root, idx);
                assert(self.leaf_tables@[k] != (root, idx));
            }
        }
        false
    }

    /// Walks the table `root` for `vpn`: the valid entry if there is one, an
    /// empty entry where the last-level node exists, else `None`.
    pub fn translate(&self, root: u64, vpn: u64) -> (r: Option<PageTableEntry>)
        requires
            self.wf(),
        ensures
            r == self.spec_translate(root, vpn),
    {
        match self.find(root, vpn) {
            Some(i) => Some(self.mappings[i].pte),
            None => {
                if self.leaf_exists(root, vpn) {
                    Some(PageTableEntry::empty())
                } else {
                    None
                }
            },
        }
    }
}


/// After appending an entry for a new key, only that key's entry changed.
pub proof fn lemma_entries_after_push(old: PhysMemory, new: PhysMemory, m: Mapping)
    requires
        old.keys_unique(),
        new.keys_unique(),
        new.mappings@ == old.mappings@.push(m),
        !old.has_mapping(m.root, m.vpn),
    ensures
        forall|r: u64, v: u64| #[trigger]
            new.entry(r, v) == if r == m.root && v == m.vpn {
                Some(m.pte)
            } else {
                old.entry(r, v)
            },
{
    let n = old.mappings@.len() as int;
    assert(new.mappings@[n] == m);
    assert forall|r: u64, v: u64| #[trigger]
        new.entry(r, v) == if r == m.root && v == m.vpn {
            Some(m.pte)
        } else {
            old.entry(r, v)
        } by {
        if r == m.root && v == m.vpn {
            new.lemma_entry_at(n);
        } else if old.has_mapping(r, v) {
            let i = old.index_of(r, v);
            old.lemma_entry_at(i);
            assert(new.mappings@[i] == old.mappings@[i]);
            new.lemma_entry_at(i);
        } else {
            if new.has_mapping(r, v) {
                let j = new.index_of(r, v);
                if j < n {
                    assert(old.mappings@[j] == new.mappings@[j]);
                    assert(old.has_mapping(r, v));
                }
            }
        }
    }
}

/// Removing the entry at position `i` keeps keys unique and drops exactly
/// that entry's key.
pub proof fn lemma_entries_after_remove(old: PhysMemory, new: PhysMemory, i: int)
    requires
        old.keys_unique(),
        0 <= i < old.mappings@.len(),
        new.mappings@ == old.mappings@.remove(i),
    ensures
        new.keys_unique(),
        forall|r: u64, v: u64| #[trigger]
            new.entry(r, v) == if r == old.mappings@[i].root && v == old.mappings@[i].vpn {
                None
            } else {
                old.entry(r, v)
            },
        forall|k: int|
            0 <= k < new.mappings@.len() ==> #[trigger] new.mappings@[k] == old.mappings@[if k < i {
                k
            } else {
                k + 1
            }],
{
    let gone = old.mappings@[i];
    assert forall|k: int|
        0 <= k < new.mappings@.len() implies #[trigger] new.mappings@[k] == old.mappings@[if k < i {
            k
        } else {
            k + 1
        }] by {}
    assert forall|a: int, b: int|
        0 <= a < b < new.mappings@.len() implies !(#[trigger] new.mappings@[a].root
            == #[trigger] new.mappings@[b].root && new.mappings@[a].vpn
            == new.mappings@[b].vpn) by {
        let a2 = if a < i { a } else { a + 1 };
        let b2 = if b < i { b } else { b + 1 };
        assert(new.mappings@[a] == old.mappings@[a2]);
        assert(new.mappings@[b] == old.mappings@[b2]);
        assert(!(old.mappings@[a2].root == old.mappings@[b2].root
            && old.mappings@[a2].vpn == old.mappings@[b2].vpn));
    }
    assert forall|r: u64, v: u64| #[trigger]
        new.entry(r, v) == if r == gone.root && v == gone.vpn {
            None
        } else {
            old.entry(r, v)
        } by {
        if new.has_mapping(r, v) {
            let j = new.index_of(r, v);
            let j2 = if j < i { j } else { j + 1 };
            assert(new.mappings@[j] == old.mappings@[j2]);
            new.lemma_entry_at(j);
            old.lemma_entry_at(j2);
            if r == gone.root && v == gone.vpn {
                if j2 < i {
                    assert(!(old.mappings@[j2].root == old.mappings@[i].root
                        && old.mappings@[j2].vpn == old.mappings@[i].vpn));
                } else {
                    assert(!(old.mappings@[i].root == old.mappings@[j2].root
                        && old.mappings@[i].vpn == old.mappings@[j2].vpn));
                }
            }
        } else if !(r == gone.root && v == gone.vpn) && old.has_mapping(r, v) {
            let j2 = old.index_of(r, v);
            assert(j2 != i);
            let j = if j2 < i { j2 } else { j2 - 1 };
            assert(new.mappings@[j] == old.mappings@[j2]);
            assert(new.has_mapping(r, v));
        }
    }
}

impl PhysMemory {
    /// Some valid entry of the table `root` points to the frame `ppn`.
    pub open spec fn owns_data(self, root: u64, ppn: u64) -> bool {
        exists|v: u64| #[trigger] self.entry(root, v) matches Some(e) && e.ppn == ppn
    }

    /// A frame that some entry of a table points to is in use.
    pub proof fn lemma_owned_allocated(self, root: u64, ppn: u64)
        requires
            self.wf(),
            self.owns_data(root, ppn),
        ensures
            self.frames.is_allocated(ppn),
    {
        let v = choose|v: u64| #[trigger] self.entry(root, v) matches Some(e) && e.ppn == ppn;
        let i = self.index_of(root, v);
        assert(self.mappings@[i].pte.ppn == ppn);
    }

    /// No two valid entries point to the same frame.
    pub proof fn lemma_entry_ppn_unique(self, r1: u64, v1: u64, r2: u64, v2: u64)
        requires
            self.wf(),
            self.entry(r1, v1) is Some,
            self.entry(r2, v2) is Some,
            self.entry(r1, v1).unwrap().ppn == self.entry(r2, v2).unwrap().ppn,
        ensures
            r1 == r2 && v1 == v2,
    {
        let i = self.index_of(r1, v1);
        let j = self.index_of(r2, v2);
        if i < j {
            assert(self.mappings@[i].pte.ppn != self.mappings@[j].pte.ppn);
        } else if j < i {
            assert(self.mappings@[j].pte.ppn != self.mappings@[i].pte.ppn);
        }
    }

    /// Position of some leaf entry of the table `root`, if it has any.
    fn find_in_table(&self, root: u64) -> (r: Option<usize>)
        ensures
            match r {
                Some(i) => i < self.mappings@.len() && self.mappings@[i as int].root == root,
                None => self.table_is_empty(root),
            },
    {
        let mut i: usize = 0;
        while i < self.mappings.len()
            invariant
                i <= self.mappings@.len(),
                forall|k: int| 0 <= k < i ==> (#[trigger] self.mappings@[k]).root != root,
            decreases self.mappings@.len() - i,
        {
            if self.mappings[i].root == root {
                return Some(i);
            }
            i = i + 1;
        }
        None
    }

    /// Clears every valid entry of the table `root` and gives back every data
    /// frame those entries pointed to.
    pub fn unmap_all(&mut self, root: u64)
        requires
            old(self).wf(),
        ensures
            final(self).wf(),
            final(self).table_is_empty(root),
            forall|v: u64| #[trigger] final(self).entry(root, v) is None,
            forall|r: u64, v: u64| r != root ==> #[trigger] final(self).entry(r, v) == old(self).entry(r, v),
            final(self).leaf_tables@ == old(self).leaf_tables@,
            final(self).roots@ == old(self).roots@,
            final(self).frames.end == old(self).frames.end,
            forall|p: u64| #[trigger]
                final(self).frames.is_allocated(p) <==> (old(self).frames.is_allocated(p)
                    && !old(self).owns_data(root, p)),
    {
        loop
            invariant
                self.wf(),
                self.leaf_tables@ == old(self).leaf_tables@,
                self.roots@ == old(self).roots@,
                self.frames.end == old(self).frames.end,
                forall|r: u64, v: u64| r != root ==> #[trigger] self.entry(r, v) == old(self).entry(r, v),
                forall|v: u64| #[trigger] self.entry(root, v) is Some ==> self.entry(root, v) == old(self).entry(root, v),
                forall|p: u64| #[trigger]
                    self.frames.is_allocated(p) <==> (old(self).frames.is_allocated(p)
                        && (!old(self).owns_data(root, p) || self.owns_data(root, p))),
            ensures
                self.wf(),
                self.table_is_empty(root),
                self.leaf_tables@ == old(self).leaf_tables@,
                self.roots@ == old(self).roots@,
                self.frames.end == old(self).frames.end,
                forall|r: u64, v: u64| r != root ==> #[trigger] self.entry(r, v) == old(self).entry(r, v),
                forall|p: u64| #[trigger]
                    self.frames.is_allocated(p) <==> (old(self).frames.is_allocated(p)
                        && (!old(self).owns_data(root, p) || self.owns_data(root, p))),
            decreases self.mappings@.len(),
        {
            match self.find_in_table(root) {
                None => break,
                Some(i) => {
                    let vpn = self.mappings[i].vpn;
                    proof { self.lemma_entry_at(i as int); }
                    let ghost before = *self;
                    let ppn = self.unmap_framed(root, vpn);
                    proof {
                        assert forall|p: u64| #[trigger]
                            self.frames.is_allocated(p) <==> (old(self).frames.is_allocated(p)
                                && (!old(self).owns_data(root, p) || self.owns_data(root, p))) by {
                            if self.owns_data(root, p) {
                                let v = choose|v: u64| #[trigger] self.entry(root, v) matches Some(e) && e.ppn == p;
                                assert(before.entry(root, v) == self.entry(root, v));
                                assert(before.owns_data(root, p));
                                if p == ppn {
                                    before.lemma_entry_ppn_unique(root, v, root, vpn);
                                }
                            }
                            if p == ppn {
                                assert(before.owns_data(root, ppn));
                                assert(old(self).entry(root, vpn) == before.entry(root, vpn));
                                assert(old(self).owns_data(root, ppn));
                            } else if before.owns_data(root, p) {
                                let v = choose|v: u64| #[trigger] before.entry(root, v) matches Some(e) && e.ppn == p;
                                assert(v != vpn);
                                assert(self.entry(root, v) == before.entry(root, v));
                                assert(self.owns_data(root, p));
                            }
                        }
                    }
                },
            }
        }
        proof {
            assert forall|v: u64| #[trigger] self.entry(root, v) is None by {
                if self.has_mapping(root, v) {
                    let i = self.index_of(root, v);
                    assert(self.mappings@[i].root != root);
                }
            }
            assert forall|p: u64| !self.owns_data(root, p) by {
                if self.owns_data(root, p) {
                    let v = choose|v: u64| #[trigger] self.entry(root, v) matches Some(e) && e.ppn == p;
                    assert(self.entry(root, v) is None);
                }
            }
        }
    }

    /// No leaf entry belongs to the table `root`.
    pub open spec fn table_is_empty(self, root: u64) -> bool {
        forall|i: int| 0 <= i < self.mappings@.len() ==> (#[trigger] self.mappings@[i]).root != root
    }

    /// Allocates a frame and makes it the root of a new, empty page table.
    pub fn new_root(&mut self) -> (root: u64)
        requires
            old(self).wf(),
            old(self).free_frames() > 0,
        ensures
            final(self).wf(),
            !old(self).frames.is_allocated(root),
            final(self).frames.end == old(self).frames.end,
            final(self).free_frames() + 1 == old(self).free_frames(),
            forall|p: u64| #[trigger]
                final(self).frames.is_allocated(p) <==> (old(self).frames.is_allocated(p) || p == root),
            final(self).mappings@ == old(self).mappings@,
            final(self).leaf_tables@ == old(self).leaf_tables@,
            final(self).roots@ == old(self).roots@.push(root),
            !old(self).is_root(root),
            final(self).table_is_empty(root),
            forall|vpn: u64| #[trigger] final(self).spec_translate(root, vpn) is None,
            forall|r: u64, vpn: u64| #[trigger]
                final(self).spec_translate(r, vpn) == old(self).spec_translate(r, vpn),
    {
        let ppn = match self.frames.allocate() {
            Some(p) => p,
            None => { assert(false); 0 },
        };
        self.roots.push(ppn);
        proof {
            let o = *old(self);
            assert(o.roots@.len() < self.roots@.len());
            assert(self.roots@[o.roots@.len() as int] == ppn);
            assert(!o.roots@.contains(ppn)) by {
                if o.roots@.contains(ppn) {
                    let k = choose|k: int| 0 <= k < o.roots@.len() && o.roots@[k] == ppn;
                    assert(o.frames.is_allocated(o.roots@[k]));
                }
            }
            assert forall|i: int, j: int|
                0 <= i < j < self.roots@.len() implies self.roots@[i] != self.roots@[j] by {
                if j == o.roots@.len() {
                    assert(o.roots@[i] == self.roots@[i]);
                    assert(o.frames.is_allocated(o.roots@[i]));
                }
            }
            assert forall|i: int| 0 <= i < self.roots@.len() implies self.frames.is_allocated(
                #[trigger] self.roots@[i]) by {
                if i < o.roots@.len() {
                    assert(o.roots@[i] == self.roots@[i]);
                    assert(o.frames.is_allocated(o.roots@[i]));
                }
            }
            assert forall|i: int| 0 <= i < self.mappings@.len() implies !self.roots@.contains(
                (#[trigger] self.mappings@[i]).pte.ppn) by {
                let m = self.mappings@[i];
                assert(o.frames.is_allocated(m.pte.ppn));
                if self.roots@.contains(m.pte.ppn) {
                    let k = choose|k: int| 0 <= k < self.roots@.len() && self.roots@[k] == m.pte.ppn;
                    if k < o.roots@.len() {
                        assert(o.roots@[k] == m.pte.ppn);
                    }
                }
            }
            assert forall|i: int| 0 <= i < self.mappings@.len() implies self.roots@.contains(
                (#[trigger] self.mappings@[i]).root) by {
                let k = choose|k: int| 0 <= k < o.roots@.len() && o.roots@[k] == self.mappings@[i].root;
                assert(self.roots@[k] == o.roots@[k]);
            }
            assert forall|i: int| 0 <= i < self.leaf_tables@.len() implies self.roots@.contains(
                (#[trigger] self.leaf_tables@[i]).0) by {
                let k = choose|k: int| 0 <= k < o.roots@.len() && o.roots@[k] == self.leaf_tables@[i].0;
                assert(self.roots@[k] == o.roots@[k]);
            }
            assert forall|i: int| 0 <= i < self.mappings@.len() implies (#[trigger] self.mappings@[i]).root != ppn by {
                assert(o.roots@.contains(o.mappings@[i].root));
            }
            assert forall|vpn: u64| #[trigger] self.spec_translate(ppn, vpn) is None by {
                if self.has_mapping(ppn, vpn) {
                    let i = self.index_of(ppn, vpn);
                    assert(self.mappings@[i].root != ppn);
                }
                if self.leaf_tables@.contains((ppn, leaf_index(vpn))) {
                    let k = choose|k: int| 0 <= k < self.leaf_tables@.len() && self.leaf_tables@[k] == (ppn, leaf_index(vpn));
                    assert(o.roots@.contains(self.leaf_tables@[k].0));
                }
            }
        }
        ppn
    }

    /// Allocates a data frame and maps the page `vpn` of the table `root` to
    /// it with the permission bits `perm` and the valid bit, creating the
    /// last-level node if it is missing. Returns the frame.
    pub fn map_framed(&mut self, root: u64, vpn: u64, perm: u8) -> (ppn: u64)
        requires
            old(self).wf(),
            old(self).is_root(root),
            vpn < VPN_SPACE,
            !old(self).is_mapped(root, vpn),
            old(self).free_frames() > 0,
        ensures
            final(self).wf(),
            final(self).entry(root, vpn) == Some(PageTableEntry { ppn, flags: entry_flags(perm) }),
            forall|r: u64, v: u64|
                !(r == root && v == vpn) ==> #[trigger] final(self).entry(r, v) == old(self).entry(r, v),
            forall|r: u64, v: u64| #[trigger]
                final(self).has_leaf(r, v) <==> (old(self).has_leaf(r, v) || (r == root
                    && leaf_index(v) == leaf_index(vpn))),
            final(self).roots@ == old(self).roots@,
            !old(self).frames.is_allocated(ppn),
            final(self).frames.end == old(self).frames.end,
            final(self).free_frames() + 1 == old(self).free_frames(),
            forall|p: u64| #[trigger]
                final(self).frames.is_allocated(p) <==> (old(self).frames.is_allocated(p) || p == ppn),
    {
        let ppn = match self.frames.allocate() {
            Some(p) => p,
            None => { assert(false); 0 },
        };
        let idx = vpn / PTES_PER_TABLE;
        let existed = self.leaf_exists(root, vpn);
        if !existed {
            self.leaf_tables.push((root, idx));
        }
        let ghost mid = *self;
        proof { lemma_entry_flags_valid(perm); }
        let m = Mapping { root, vpn, pte: PageTableEntry { ppn, flags: perm | PTE_V } };
        self.mappings.push(m);
        proof {
            let o = *old(self);
            assert(mid.mappings@ == o.mappings@);
            assert(!o.has_mapping(root, vpn));
            let n = o.mappings@.len() as int;
            assert(self.mappings@[n] == m);
            assert forall|i: int| 0 <= i < n implies o.frames.is_allocated(#[trigger] o.mappings@[i].pte.ppn) by {}
            assert forall|i: int, j: int|
                0 <= i < j < self.mappings@.len() implies !(#[trigger] self.mappings@[i].root
                    == #[trigger] self.mappings@[j].root && self.mappings@[i].vpn
                    == self.mappings@[j].vpn) by {
                if j == n {
                    assert(self.mappings@[i] == o.mappings@[i]);
                    if self.mappings@[i].root == root && self.mappings@[i].vpn == vpn {
                        assert(o.has_mapping(root, vpn));
                    }
                }
            }
            assert forall|i: int, j: int|
                0 <= i < j < self.mappings@.len() implies #[trigger] self.mappings@[i].pte.ppn
                    != #[trigger] self.mappings@[j].pte.ppn by {
                if j == n {
                    assert(self.mappings@[i] == o.mappings@[i]);
                    assert(o.frames.is_allocated(o.mappings@[i].pte.ppn));
                }
            }
            assert(self.leaf_tables@.contains((root, leaf_index(vpn)))) by {
                if existed {
                    let k = choose|k: int| 0 <= k < o.leaf_tables@.len() && o.leaf_tables@[k] == (root, leaf_index(vpn));
                    assert(self.leaf_tables@[k] == o.leaf_tables@[k]);
                } else {
                    assert(self.leaf_tables@[o.leaf_tables@.len() as int] == (root, idx));
                }
            }
            assert forall|i: int|
                0 <= i < self.mappings@.len() implies {
                    let mm = #[trigger] self.mappings@[i];
                    &&& mm.pte.valid()
                    &&& mm.vpn < VPN_SPACE
                    &&& self.roots@.contains(mm.root)
                    &&& self.leaf_tables@.contains((mm.root, leaf_index(mm.vpn)))
                    &&& self.frames.is_allocated(mm.pte.ppn)
                    &&& !self.roots@.contains(mm.pte.ppn)
                } by {
                if i < n {
                    assert(self.mappings@[i] == o.mappings@[i]);
                    let mm = o.mappings@[i];
                    assert(o.leaf_tables@.contains((mm.root, leaf_index(mm.vpn))));
                    let k = choose|k: int| 0 <= k < o.leaf_tables@.len() && o.leaf_tables@[k] == (mm.root, leaf_index(mm.vpn));
                    assert(self.leaf_tables@[k] == o.leaf_tables@[k]);
                } else {
                    if self.roots@.contains(ppn) {
                        let k = choose|k: int| 0 <= k < self.roots@.len() && self.roots@[k] == ppn;
                        assert(o.frames.is_allocated(o.roots@[k]));
                    }
                }
            }
            assert forall|i: int| 0 <= i < self.roots@.len() implies self.frames.is_allocated(#[trigger] self.roots@[i]) by {
                assert(o.frames.is_allocated(o.roots@[i]));
            }
            assert forall|i: int|
                0 <= i < self.leaf_tables@.len() implies self.roots@.contains((#[trigger] self.leaf_tables@[i]).0) by {
                if i < o.leaf_tables@.len() {
                    assert(self.leaf_tables@[i] == o.leaf_tables@[i]);
                }
            }
            lemma_entries_after_push(o, *self, m);
            assert forall|r: u64, v: u64| #[trigger]
                self.has_leaf(r, v) <==> (o.has_leaf(r, v) || (r == root && leaf_index(v) == leaf_index(vpn))) by {
                let t = (r, leaf_index(v));
                if self.leaf_tables@.contains(t) {
                    let k = choose|k: int| 0 <= k < self.leaf_tables@.len() && self.leaf_tables@[k] == t;
                    if k < o.leaf_tables@.len() {
                        assert(o.leaf_tables@[k] == t);
                    }
                }
                if o.leaf_tables@.contains(t) {
                    let k = choose|k: int| 0 <= k < o.leaf_tables@.len() && o.leaf_tables@[k] == t;
                    assert(self.leaf_tables@[k] == t);
                }
            }
        }
        ppn
    }

    /// Clears the valid entry of the page `vpn` in the table `root` and gives
    /// its data frame back. Returns that frame.
    pub fn unmap_framed(&mut self, root: u64, vpn: u64) -> (ppn: u64)
        requires
            old(self).wf(),
            old(self).is_mapped(root, vpn),
        ensures
            final(self).wf(),
            old(self).entry(root, vpn) matches Some(e) && e.ppn == ppn,
            final(self).entry(root, vpn) is None,
            final(self).mappings@.len() + 1 == old(self).mappings@.len(),
            forall|r: u64, v: u64|
                !(r == root && v == vpn) ==> #[trigger] final(self).entry(r, v) == old(self).entry(r, v),
            final(self).leaf_tables@ == old(self).leaf_tables@,
            final(self).roots@ == old(self).roots@,
            old(self).frames.is_allocated(ppn),
            final(self).frames.end == old(self).frames.end,
            final(self).free_frames() == old(self).free_frames() + 1,
            forall|p: u64| #[trigger]
                final(self).frames.is_allocated(p) <==> (old(self).frames.is_allocated(p) && p != ppn),
    {
        let i = match self.find(root, vpn) {
            Some(i) => i,
            None => { assert(false); 0 },
        };
        let m = self.mappings.remove(i);
        let ghost mid = *self;
        self.frames.deallocate(m.pte.ppn);
        proof {
            let o = *old(self);
            lemma_entries_after_remove(o, mid, i as int);
            assert(mid.mappings@ == self.mappings@);
            assert forall|r: u64, v: u64| #[trigger] self.entry(r, v) == mid.entry(r, v) by {}
            assert forall|a: int, b: int|
                0 <= a < b < self.mappings@.len() implies #[trigger] self.mappings@[a].pte.ppn
                    != #[trigger] self.mappings@[b].pte.ppn by {
                let a2 = if a < i { a } else { a + 1 };
                let b2 = if b < i { b } else { b + 1 };
                assert(mid.mappings@[a] == o.mappings@[a2]);
                assert(mid.mappings@[b] == o.mappings@[b2]);
            }
            assert forall|k: int|
                0 <= k < self.mappings@.len() implies {
                    let mm = #[trigger] self.mappings@[k];
                    &&& mm.pte.valid()
                    &&& mm.vpn < VPN_SPACE
                    &&& self.roots@.contains(mm.root)
                    &&& self.leaf_tables@.contains((mm.root, leaf_index(mm.vpn)))
                    &&& self.frames.is_allocated(mm.pte.ppn)
                    &&& !self.roots@.contains(mm.pte.ppn)
                } by {
                let k2 = if k < i { k } else { k + 1 };
                assert(mid.mappings@[k] == o.mappings@[k2]);
                if k2 < i {
                    assert(o.mappings@[k2].pte.ppn != o.mappings@[i as int].pte.ppn);
                } else {
                    assert(o.mappings@[i as int].pte.ppn != o.mappings@[k2].pte.ppn);
                }
            }
            assert forall|k: int| 0 <= k < self.roots@.len() implies self.frames.is_allocated(#[trigger] self.roots@[k]) by {
                assert(o.frames.is_allocated(o.roots@[k]));
                assert(!o.roots@.contains(o.mappings@[i as int].pte.ppn));
            }
        }
        m.pte.ppn
    }
}


impl PhysMemory {
    /// Releases the page table `root`, which holds no valid entry any more:
    /// drops its last-level nodes and gives its root frame back.
    pub fn free_root(&mut self, root: u64)
        requires
            old(self).wf(),
            old(self).is_root(root),
            old(self).table_is_empty(root),
        ensures
            final(self).wf(),
            final(self).mappings@ == old(self).mappings@,
            forall|r: u64| #[trigger] final(self).is_root(r) <==> (old(self).is_root(r) && r != root),
            forall|r: u64, v: u64| #[trigger]
                final(self).has_leaf(r, v) <==> (old(self).has_leaf(r, v) && r != root),
            forall|r: u64, v: u64| #[trigger] final(self).entry(r, v) == old(self).entry(r, v),
            final(self).frames.end == old(self).frames.end,
            final(self).free_frames() == old(self).free_frames() + 1,
            forall|p: u64| #[trigger]
                final(self).frames.is_allocated(p) <==> (old(self).frames.is_allocated(p) && p != root),
    {
        let mut kept: Vec<(u64, u64)> = Vec::new();
        let mut i: usize = 0;
        while i < self.leaf_tables.len()
            invariant
                i <= self.leaf_tables@.len(),
                forall|t: (u64, u64)| #[trigger] kept@.contains(t) <==> (exists|k: int|
                    0 <= k < i && self.leaf_tables@[k] == t && t.0 != root),
            decreases self.leaf_tables@.len() - i,
        {
            let t = self.leaf_tables[i];
            if t.0 != root {
                let ghost before = kept@;
                kept.push(t);
                proof {
                    assert(kept@[before.len() as int] == t);
                    assert forall|u: (u64, u64)| #[trigger] kept@.contains(u) <==> (exists|k: int|
                        0 <= k < i + 1 && self.leaf_tables@[k] == u && u.0 != root) by {
                        if kept@.contains(u) {
                            let j = choose|j: int| 0 <= j < kept@.len() && kept@[j] == u;
                            if j < before.len() {
                                assert(before[j] == u);
                                assert(before.contains(u));
                            }
                        }
                        if exists|k: int| 0 <= k < i + 1 && self.leaf_tables@[k] == u && u.0 != root {
                            let k = choose|k: int| 0 <= k < i + 1 && self.leaf_tables@[k] == u && u.0 != root;
                            if k < i {
                                assert(before.contains(u));
                                let j = choose|j: int| 0 <= j < before.len() && before[j] == u;
                                assert(kept@[j] == u);
                            }
                        }
                    }
                }
            } else {
                proof {
                    assert forall|u: (u64, u64)| #[trigger] kept@.contains(u) <==> (exists|k: int|
                        0 <= k < i + 1 && self.leaf_tables@[k] == u && u.0 != root) by {
                        if exists|k: int| 0 <= k < i + 1 && self.leaf_tables@[k] == u && u.0 != root {
                            let k = choose|k: int| 0 <= k < i + 1 && self.leaf_tables@[k] == u && u.0 != root;
                            assert(k != i);
                        }
                    }
                }
            }
            i = i + 1;
        }
        let mut j: usize = 0;
        while j < self.roots.len()
            invariant
                j <= self.roots@.len(),
                self.roots@.contains(root),
                forall|k: int| 0 <= k < j ==> self.roots@[k] != root,
            ensures
                j <= self.roots@.len(),
                self.roots@.contains(root),
                forall|k: int| 0 <= k < j ==> self.roots@[k] != root,
                j < self.roots@.len() ==> self.roots@[j as int] == root,
            decreases self.roots@.len() - j,
        {
            if self.roots[j] == root {
                break;
            }
            j = j + 1;
        }
        if j == self.roots.len() {
            proof {
                let k = choose|k: int| 0 <= k < self.roots@.len() && self.roots@[k] == root;
            }
            return;
        }
        let ghost o = *self;
        self.leaf_tables = kept;
        self.roots.remove(j);
        self.frames.deallocate(root);
        proof {
            assert(o.roots@[j as int] == root);
            assert forall|k: int| 0 <= k < self.roots@.len() implies #[trigger] self.roots@[k]
                == o.roots@[if k < j { k } else { k + 1 }] by {}
            assert forall|r: u64| #[trigger] self.is_root(r) <==> (o.is_root(r) && r != root) by {
                if self.roots@.contains(r) {
                    let k = choose|k: int| 0 <= k < self.roots@.len() && self.roots@[k] == r;
                    let k2 = if k < j { k } else { k + 1 };
                    assert(o.roots@[k2] == r);
                    if k2 != j {
                        if k2 < j {
                            assert(o.roots@[k2] != o.roots@[j as int]);
                        } else {
                            assert(o.roots@[j as int] != o.roots@[k2]);
                        }
                    }
                }
                if o.roots@.contains(r) && r != root {
                    let k2 = choose|k: int| 0 <= k < o.roots@.len() && o.roots@[k] == r;
                    assert(k2 != j);
                    let k = if k2 < j { k2 } else { k2 - 1 };
                    assert(self.roots@[k] == r);
                }
            }
            assert forall|r: u64, v: u64| #[trigger]
                self.has_leaf(r, v) <==> (o.has_leaf(r, v) && r != root) by {
                let t = (r, leaf_index(v));
                if o.leaf_tables@.contains(t) && r != root {
                    let k = choose|k: int| 0 <= k < o.leaf_tables@.len() && o.leaf_tables@[k] == t;
                    assert(exists|k: int| 0 <= k < o.leaf_tables@.len() && o.leaf_tables@[k] == t && t.0 != root);
                }
            }
            assert forall|r: u64, v: u64| #[trigger] self.entry(r, v) == o.entry(r, v) by {}
            assert forall|a: int, b: int|
                0 <= a < b < self.roots@.len() implies self.roots@[a] != self.roots@[b] by {
                let a2 = if a < j { a } else { a + 1 };
                let b2 = if b < j { b } else { b + 1 };
                assert(o.roots@[a2] != o.roots@[b2]);
            }
            assert forall|k: int| 0 <= k < self.roots@.len() implies self.frames.is_allocated(#[trigger] self.roots@[k]) by {
                let k2 = if k < j { k } else { k + 1 };
                assert(o.frames.is_allocated(o.roots@[k2]));
                if k2 < j {
                    assert(o.roots@[k2] != o.roots@[j as int]);
                } else {
                    assert(o.roots@[j as int] != o.roots@[k2]);
                }
            }
            assert forall|k: int|
                0 <= k < self.mappings@.len() implies {
                    let mm = #[trigger] self.mappings@[k];
                    &&& mm.pte.valid()
                    &&& mm.vpn < VPN_SPACE
                    &&& self.roots@.contains(mm.root)
                    &&& self.leaf_tables@.contains((mm.root, leaf_index(mm.vpn)))
                    &&& self.frames.is_allocated(mm.pte.ppn)
                    &&& !self.roots@.contains(mm.pte.ppn)
                } by {
                let mm = self.mappings@[k];
                assert(mm.root != root);
                assert(o.is_root(mm.root));
                assert(self.is_root(mm.root));
                assert(o.has_leaf(mm.root, mm.vpn));
                assert(self.has_leaf(mm.root, mm.vpn));
                assert(mm.pte.ppn != root);
                if self.roots@.contains(mm.pte.ppn) {
                    assert(self.is_root(mm.pte.ppn));
                }
            }
            assert forall|k: int|
                0 <= k < self.leaf_tables@.len() implies self.roots@.contains((#[trigger] self.leaf_tables@[k]).0) by {
                let t = self.leaf_tables@[k];
                assert(kept@.contains(t));
                let k2 = choose|k2: int| 0 <= k2 < o.leaf_tables@.len() && o.leaf_tables@[k2] == t && t.0 != root;
                assert(o.is_root(t.0));
                assert(self.is_root(t.0));
            }
        }
    }
}


impl PhysMemory {
    /// Physical address that a walk of the table `root` gives for the
    /// virtual address `va` (cut to 39 bits): the frame of whatever entry the
    /// walk finds, plus the offset inside the page; `None` when the walk finds
    /// no last-level node.
    pub open spec fn spec_translate_va(self, root: u64, va: u64) -> Option<u64> {
        let v = crate::address::spec_virt_addr(va);
        match self.spec_translate(root, crate::address::spec_floor(v)) {
            Some(pte) => Some((pte.ppn * crate::config::PAGE_SIZE + v % crate::config::PAGE_SIZE) as u64),
            None => None,
        }
    }

    /// Every frame that an entry points to lies below the 44-bit limit.
    pub proof fn lemma_translate_ppn_bound(self, root: u64, vpn: u64)
        requires
            self.wf(),
        ensures
            self.spec_translate(root, vpn) matches Some(p) ==> p.ppn < 0x1000_0000_0000,
    {
        if self.has_mapping(root, vpn) {
            let i = self.index_of(root, vpn);
            assert(self.frames.is_allocated(self.mappings@[i].pte.ppn));
        }
    }

    /// Translates the virtual address `va` through the table `root`.
    pub fn translate_va(&self, root: u64, va: u64) -> (r: Option<u64>)
        requires
            self.wf(),
        ensures
            r == self.spec_translate_va(root, va),
    {
        let v = crate::address::virt_addr(va);
        proof { self.lemma_translate_ppn_bound(root, crate::address::spec_floor(v)); }
        match self.translate(root, crate::address::floor(v)) {
            Some(pte) => Some(pte.ppn * crate::config::PAGE_SIZE + v % crate::config::PAGE_SIZE),
            None => None,
        }
    }

    /// A table all of whose pages have no valid entry holds no entry at all.
    pub proof fn lemma_table_empty(self, root: u64)
        requires
            self.keys_unique(),
            forall|v: u64| #[trigger] self.entry(root, v) is None,
        ensures
            self.table_is_empty(root),
    {
        assert forall|i: int| 0 <= i < self.mappings@.len() implies (#[trigger] self.mappings@[i]).root != root by {
            self.lemma_entry_at(i);
            assert(self.entry(self.mappings@[i].root, self.mappings@[i].vpn) is Some);
        }
    }
}


impl PhysMemory {
    /// Takes a frame and gives it straight back, reporting which frame that
    /// was; `None` when every frame is in use. The frames in use stay the
    /// same.
    pub fn probe_frame(&mut self) -> (r: Option<u64>)
        requires
            old(self).wf(),
        ensures
            final(self).wf(),
            r is Some <==> old(self).free_frames() > 0,
            final(self).free_frames() == old(self).free_frames(),
            final(self).mappings@ == old(self).mappings@,
            final(self).leaf_tables@ == old(self).leaf_tables@,
            final(self).roots@ == old(self).roots@,
            final(self).frames.end == old(self).frames.end,
            forall|p: u64| #[trigger] final(self).frames.is_allocated(p) == old(self).frames.is_allocated(p),
            forall|rt: u64, v: u64| #[trigger] final(self).entry(rt, v) == old(self).entry(rt, v),
            forall|rt: u64, v: u64| #[trigger] final(self).spec_translate(rt, v) == old(self).spec_translate(rt, v),
    {
        match self.frames.allocate() {
            Some(p) => {
                self.frames.deallocate(p);
                proof {
                    assert forall|q: u64| #[trigger] self.frames.is_allocated(q) == old(self).frames.is_allocated(q) by {}
                    assert(self.mappings@ == old(self).mappings@);
                    assert forall|rt: u64, v: u64| #[trigger] self.entry(rt, v) == old(self).entry(rt, v) by {
                        assert(self.has_mapping(rt, v) == old(self).has_mapping(rt, v));
                    }
                    assert forall|rt: u64, v: u64| #[trigger] self.spec_translate(rt, v) == old(self).spec_translate(rt, v) by {
                        assert(self.entry(rt, v) == old(self).entry(rt, v));
                    }
                }
                Some(p)
            },
            None => None,
        }
    }
}

} // verus!
