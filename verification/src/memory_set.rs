use vstd::prelude::*;
use crate::config::VPN_SPACE;
use crate::address::{floor, ceil, spec_floor, spec_ceil};
use crate::page_table::{PhysMemory, PageTableEntry, entry_flags, leaf_index};

verus! {

/// Readable permission of a mapped area.
pub const MAP_PERM_R: u8 = 2;
/// Writable permission of a mapped area.
pub const MAP_PERM_W: u8 = 4;
/// Executable permission of a mapped area.
pub const MAP_PERM_X: u8 = 8;
/// User-accessible permission of a mapped area.
pub const MAP_PERM_U: u8 = 16;

/// A contiguous run of virtual pages `[start_vpn, end_vpn)`, each backed by a
/// frame of its own, with one set of permissions.
#[derive(Clone, Copy)]
pub struct MapArea {
    pub start_vpn: u64,
    pub end_vpn: u64,
    pub map_perm: u8,
}

impl MapArea {
    /// The page `vpn` lies in the area's range.
    pub open spec fn spec_contains(self, vpn: u64) -> bool {
        self.start_vpn <= vpn < self.end_vpn
    }

    /// The area covering the pages from the one holding `start_va` up to the
    /// first page at or above `end_va`.
    pub fn new(start_va: u64, end_va: u64, map_perm: u8) -> (r: MapArea)
        requires
            spec_floor(start_va) <= spec_ceil(end_va),
        ensures
            r.start_vpn == spec_floor(start_va),
            r.end_vpn == spec_ceil(end_va),
            r.map_perm == map_perm,
    {
        MapArea { start_vpn: floor(start_va), end_vpn: ceil(end_va), map_perm }
    }

    /// Whether the page `vpn` lies in the area's range.
    pub fn contains(&self, vpn: u64) -> (r: bool)
        ensures
            r == self.spec_contains(vpn),
    {
        self.start_vpn <= vpn && vpn < self.end_vpn
    }
}

/// Handle on a page table: the frame that holds its root node.
#[derive(Clone, Copy)]
pub struct PageTable {
    pub root_ppn: u64,
}

/// Physical page number named by the `satp` value `token`: its low 44 bits.
pub open spec fn spec_token_root(token: u64) -> u64 {
    (token % 0x1000_0000_0000) as u64
}

/// The `satp` value that selects Sv39 translation with the root `root_ppn`.
pub open spec fn spec_token(root_ppn: u64) -> u64 {
    (0x8000_0000_0000_0000u64 | root_ppn) as u64
}

impl PageTable {
    /// The page table whose root is named by the `satp` value `token`.
    pub fn from_token(token: u64) -> (r: PageTable)
        ensures
            r.root_ppn == spec_token_root(token),
    {
        let root_ppn = token & 0xfff_ffff_ffff;
        assert(token & 0xfff_ffff_ffffu64 == token % 0x1000_0000_0000u64) by (bit_vector);
        PageTable { root_ppn }
    }

    /// The `satp` value that makes this table the active one.
    pub fn token(&self) -> (r: u64)
        ensures
            r == spec_token(self.root_ppn),
    {
        0x8000_0000_0000_0000u64 | self.root_ppn
    }
}

/// Reading a table back from its own `satp` value gives the same root.
pub proof fn lemma_token_round_trip(root_ppn: u64)
    requires
        root_ppn < 0x1000_0000_0000,
    ensures
        spec_token_root(spec_token(root_ppn)) == root_ppn,
{
    assert(root_ppn < 0x1000_0000_0000u64 ==> ((0x8000_0000_0000_0000u64 | root_ppn)
        % 0x1000_0000_0000u64) == root_ppn) by (bit_vector);
}

/// An address space: a page table and the areas mapped in it.
pub struct MemorySet {
    pub page_table: PageTable,
    pub areas: Vec<MapArea>,
}

/// The page `vpn` lies in one of the `areas`.
pub open spec fn areas_cover(areas: Seq<MapArea>, vpn: u64) -> bool {
    exists|i: int| 0 <= i < areas.len() && (#[trigger] areas[i]).spec_contains(vpn)
}

/// Total number of pages in the `areas`.
pub open spec fn total_pages(areas: Seq<MapArea>) -> nat
    decreases areas.len(),
{
    if areas.len() == 0 {
        0
    } else {
        total_pages(areas.drop_last()) + (areas.last().end_vpn - areas.last().start_vpn) as nat
    }
}

/// No two of the `areas` share a page.
pub open spec fn areas_disjoint(areas: Seq<MapArea>) -> bool {
    forall|i: int, j: int, v: u64|
        0 <= i < j < areas.len() ==> !(#[trigger] areas[i].spec_contains(v) && #[trigger] areas[j].spec_contains(v))
}

impl MemorySet {
    /// Root frame of the address space's page table.
    pub open spec fn root(&self) -> u64 {
        self.page_table.root_ppn
    }

    /// Well-formedness against physical memory: the page table is live and
    /// every area is a well-ordered range of Sv39 pages.
    pub open spec fn wf(&self, mem: &PhysMemory) -> bool {
        &&& mem.is_root(self.root())
        &&& forall|i: int| 0 <= i < self.areas@.len() ==> {
            let a = #[trigger] self.areas@[i];
            a.start_vpn <= a.end_vpn <= VPN_SPACE
        }
    }

    /// The page `vpn` lies in one of this address space's areas.
    pub open spec fn covers(&self, vpn: u64) -> bool {
        areas_cover(self.areas@, vpn)
    }

    /// The address space whose page table is named by the `satp` value
    /// `token`, with no area recorded.
    pub fn from_token(token: u64) -> (r: MemorySet)
        ensures
            r.root() == spec_token_root(token),
            r.areas@ == Seq::<MapArea>::empty(),
    {
        MemorySet { page_table: PageTable::from_token(token), areas: Vec::new() }
    }

    /// An empty address space with a freshly allocated page table.
    pub fn new_bare(mem: &mut PhysMemory) -> (r: MemorySet)
        requires
            old(mem).wf(),
            old(mem).free_frames() > 0,
        ensures
            final(mem).wf(),
            r.wf(&*final(mem)),
            r.areas@ == Seq::<MapArea>::empty(),
            !old(mem).is_root(r.root()),
            final(mem).roots@ == old(mem).roots@.push(r.root()),
            final(mem).mappings@ == old(mem).mappings@,
            final(mem).leaf_tables@ == old(mem).leaf_tables@,
            final(mem).table_is_empty(r.root()),
            forall|vpn: u64| #[trigger] final(mem).spec_translate(r.root(), vpn) is None,
            final(mem).free_frames() + 1 == old(mem).free_frames(),
            final(mem).frames.end == old(mem).frames.end,
            forall|p: u64| #[trigger] old(mem).frames.is_allocated(p) ==> final(mem).frames.is_allocated(p),
            forall|p: u64| #[trigger] final(mem).frames.is_allocated(p) <==> (old(mem).frames.is_allocated(p) || p == r.root()),
    {
        let root_ppn = mem.new_root();
        let r = MemorySet { page_table: PageTable { root_ppn }, areas: Vec::new() };
        proof {
            assert(mem.roots@[old(mem).roots@.len() as int] == root_ppn);
        }
        r
    }

    /// The `satp` value that makes this address space the active one.
    pub fn token(&self) -> (r: u64)
        ensures
            r == spec_token(self.root()),
    {
        self.page_table.token()
    }

    /// Walks this address space's page table for the page `vpn`.
    pub fn translate(&self, mem: &PhysMemory, vpn: u64) -> (r: Option<PageTableEntry>)
        requires
            mem.wf(),
        ensures
            r == mem.spec_translate(self.root(), vpn),
    {
        mem.translate(self.page_table.root_ppn, vpn)
    }

    /// Records `area` and maps each of its pages to a fresh frame.
    pub fn push(&mut self, mem: &mut PhysMemory, area: MapArea)
        requires
            old(mem).wf(),
            old(self).wf(&*old(mem)),
            area.start_vpn <= area.end_vpn <= VPN_SPACE,
            forall|v: u64|
                area.start_vpn <= v < area.end_vpn ==> !old(mem).is_mapped(old(self).root(), v),
            old(mem).free_frames() >= area.end_vpn - area.start_vpn,
        ensures
            final(mem).wf(),
            final(self).wf(&*final(mem)),
            final(self).page_table == old(self).page_table,
            final(self).areas@ == old(self).areas@.push(area),
            forall|v: u64|
                area.start_vpn <= v < area.end_vpn ==> (#[trigger] final(mem).entry(old(self).root(), v) matches Some(e)
                    && e.flags == entry_flags(area.map_perm)),
            forall|r: u64, v: u64|
                !(r == old(self).root() && area.start_vpn <= v < area.end_vpn) ==> #[trigger] final(mem).entry(r, v)
                    == old(mem).entry(r, v),
            forall|r: u64, v: u64| #[trigger]
                final(mem).has_leaf(r, v) <==> (old(mem).has_leaf(r, v) || (r == old(self).root()
                    && exists|w: u64| area.start_vpn <= w < area.end_vpn && leaf_index(w) == leaf_index(v))),
            final(mem).roots@ == old(mem).roots@,
            final(mem).frames.end == old(mem).frames.end,
            final(mem).free_frames() + (area.end_vpn - area.start_vpn) == old(mem).free_frames(),
            forall|p: u64| #[trigger] old(mem).frames.is_allocated(p) ==> final(mem).frames.is_allocated(p),
            forall|p: u64| #[trigger] final(mem).frames.is_allocated(p) <==> (old(mem).frames.is_allocated(p)
                || final(mem).owns_data(old(self).root(), p)),
    {
        let root = self.page_table.root_ppn;
        let mut vpn = area.start_vpn;
        while vpn < area.end_vpn
            invariant
                area.start_vpn <= vpn <= area.end_vpn <= VPN_SPACE,
                mem.wf(),
                mem.is_root(root),
                root == old(self).root(),
                mem.roots@ == old(mem).roots@,
                mem.frames.end == old(mem).frames.end,
                mem.free_frames() + (vpn - area.start_vpn) == old(mem).free_frames(),
                old(mem).free_frames() >= area.end_vpn - area.start_vpn,
                forall|p: u64| #[trigger] old(mem).frames.is_allocated(p) ==> mem.frames.is_allocated(p),
                forall|p: u64| #[trigger] mem.frames.is_allocated(p) <==> (old(mem).frames.is_allocated(p)
                    || mem.owns_data(root, p)),
                forall|v: u64|
                    area.start_vpn <= v < vpn ==> (#[trigger] mem.entry(root, v) matches Some(e)
                        && e.flags == entry_flags(area.map_perm)),
                forall|r: u64, v: u64|
                    !(r == root && area.start_vpn <= v < vpn) ==> #[trigger] mem.entry(r, v) == old(mem).entry(r, v),
                forall|v: u64|
                    area.start_vpn <= v < area.end_vpn ==> !old(mem).is_mapped(root, v),
                forall|r: u64, v: u64| #[trigger]
                    mem.has_leaf(r, v) <==> (old(mem).has_leaf(r, v) || (r == root
                        && exists|w: u64| area.start_vpn <= w < vpn && leaf_index(w) == leaf_index(v))),
            decreases area.end_vpn - vpn,
        {
            let ghost before = *mem;
            assert(mem.entry(root, vpn) == old(mem).entry(root, vpn));
            assert(!old(mem).is_mapped(root, vpn));
            assert(mem.free_frames() >= area.end_vpn - vpn);
            let ppn = mem.map_framed(root, vpn, area.map_perm);
            proof {
                assert forall|p: u64| #[trigger] mem.frames.is_allocated(p) <==> (old(mem).frames.is_allocated(p)
                    || mem.owns_data(root, p)) by {
                    if mem.owns_data(root, p) {
                        let v = choose|v: u64| #[trigger] mem.entry(root, v) matches Some(e) && e.ppn == p;
                        if v != vpn {
                            assert(before.entry(root, v) == mem.entry(root, v));
                            assert(before.owns_data(root, p));
                        }
                    }
                    if before.owns_data(root, p) {
                        let v = choose|v: u64| #[trigger] before.entry(root, v) matches Some(e) && e.ppn == p;
                        if v == vpn {
                            assert(before.entry(root, vpn) is None);
                        }
                        assert(mem.entry(root, v) == before.entry(root, v));
                        assert(mem.owns_data(root, p));
                    }
                    if p == ppn {
                        assert(mem.entry(root, vpn) matches Some(e) && e.ppn == p);
                    }
                }
                assert forall|r: u64, v: u64| #[trigger]
                    mem.has_leaf(r, v) <==> (old(mem).has_leaf(r, v) || (r == root
                        && exists|w: u64| area.start_vpn <= w < vpn + 1 && leaf_index(w) == leaf_index(v))) by {
                    if r == root && exists|w: u64| area.start_vpn <= w < vpn + 1 && leaf_index(w) == leaf_index(v) {
                        let w = choose|w: u64| area.start_vpn <= w < vpn + 1 && leaf_index(w) == leaf_index(v);
                        if w < vpn {
                            assert(before.has_leaf(r, v));
                        }
                    }
                    if before.has_leaf(r, v) && !old(mem).has_leaf(r, v) {
                        let w = choose|w: u64| area.start_vpn <= w < vpn && leaf_index(w) == leaf_index(v);
                        assert(area.start_vpn <= w < vpn + 1);
                    }
                }
            }
            vpn = vpn + 1;
        }
        self.areas.push(area);
        proof {
            assert forall|i: int| 0 <= i < self.areas@.len() implies {
                let a = #[trigger] self.areas@[i];
                a.start_vpn <= a.end_vpn <= VPN_SPACE
            } by {
                if i < old(self).areas@.len() {
                    assert(self.areas@[i] == old(self).areas@[i]);
                }
            }
        }
    }

    /// Records the framed area from the page holding `start_va` up to the
    /// first page at or above `end_va`, with permissions `perm`, and maps it.
    pub fn insert_framed_area(&mut self, mem: &mut PhysMemory, start_va: u64, end_va: u64, perm: u8)
        requires
            old(mem).wf(),
            old(self).wf(&*old(mem)),
            spec_floor(start_va) <= spec_ceil(end_va) <= VPN_SPACE,
            forall|v: u64|
                spec_floor(start_va) <= v < spec_ceil(end_va) ==> !old(mem).is_mapped(old(self).root(), v),
            old(mem).free_frames() >= spec_ceil(end_va) - spec_floor(start_va),
        ensures
            final(mem).wf(),
            final(self).wf(&*final(mem)),
            final(self).page_table == old(self).page_table,
            final(self).areas@ == old(self).areas@.push(MapArea {
                start_vpn: spec_floor(start_va),
                end_vpn: spec_ceil(end_va) as u64,
                map_perm: perm,
            }),
            forall|v: u64|
                spec_floor(start_va) <= v < spec_ceil(end_va) ==> (#[trigger] final(mem).entry(old(self).root(), v) matches Some(e)
                    && e.flags == entry_flags(perm)),
            forall|r: u64, v: u64|
                !(r == old(self).root() && spec_floor(start_va) <= v < spec_ceil(end_va)) ==> #[trigger] final(mem).entry(r, v)
                    == old(mem).entry(r, v),
            forall|r: u64, v: u64| old(mem).has_leaf(r, v) ==> #[trigger] final(mem).has_leaf(r, v),
            forall|r: u64, v: u64| #[trigger]
                final(mem).has_leaf(r, v) <==> (old(mem).has_leaf(r, v) || (r == old(self).root()
                    && exists|w: u64| spec_floor(start_va) <= w < spec_ceil(end_va) && leaf_index(w) == leaf_index(v))),
            final(mem).roots@ == old(mem).roots@,
            final(mem).frames.end == old(mem).frames.end,
            final(mem).free_frames() + (spec_ceil(end_va) - spec_floor(start_va)) == old(mem).free_frames(),
            forall|p: u64| #[trigger] old(mem).frames.is_allocated(p) ==> final(mem).frames.is_allocated(p),
            forall|p: u64| #[trigger] final(mem).frames.is_allocated(p) <==> (old(mem).frames.is_allocated(p)
                || final(mem).owns_data(old(self).root(), p)),
    {
        let area = MapArea::new(start_va, end_va, perm);
        self.push(mem, area);
    }

    /// Clears the page `vpn` if one of the areas holds it, giving its frame
    /// back; the areas themselves stay as they are. Nothing happens when no
    /// area holds the page.
    pub fn unmap(&mut self, mem: &mut PhysMemory, vpn: u64)
        requires
            old(mem).wf(),
            old(self).covers(vpn) ==> old(mem).is_mapped(old(self).root(), vpn),
        ensures
            final(mem).wf(),
            *final(self) == *old(self),
            old(self).covers(vpn) ==> {
                &&& final(mem).entry(old(self).root(), vpn) is None
                &&& forall|r: u64, v: u64|
                    !(r == old(self).root() && v == vpn) ==> #[trigger] final(mem).entry(r, v) == old(mem).entry(r, v)
                &&& final(mem).leaf_tables@ == old(mem).leaf_tables@
                &&& final(mem).roots@ == old(mem).roots@
                &&& final(mem).frames.end == old(mem).frames.end
                &&& final(mem).free_frames() == old(mem).free_frames() + 1
                &&& forall|p: u64| #[trigger]
                    final(mem).frames.is_allocated(p) <==> (old(mem).frames.is_allocated(p)
                        && p != old(mem).entry(old(self).root(), vpn).unwrap().ppn)
            },
            !old(self).covers(vpn) ==> *final(mem) == *old(mem),
    {
        let mut i: usize = 0;
        while i < self.areas.len()
            invariant
                i <= self.areas@.len(),
                *mem == *old(mem),
                *self == *old(self),
                mem.wf(),
                old(self).covers(vpn) ==> old(mem).is_mapped(old(self).root(), vpn),
                forall|k: int| 0 <= k < i ==> !(#[trigger] self.areas@[k]).spec_contains(vpn),
            decreases self.areas@.len() - i,
        {
            if self.areas[i].contains(vpn) {
                assert(old(self).covers(vpn)) by {
                    assert(self.areas@[i as int].spec_contains(vpn));
                }
                mem.unmap_framed(self.page_table.root_ppn, vpn);
                return;
            }
            i = i + 1;
        }
    }

    /// Forgets every area and clears every page of this address space, giving
    /// each data frame back; the page table itself stays.
    pub fn recycle_data_pages(&mut self, mem: &mut PhysMemory)
        requires
            old(mem).wf(),
        ensures
            final(mem).wf(),
            final(self).page_table == old(self).page_table,
            final(self).areas@ == Seq::<MapArea>::empty(),
            final(mem).table_is_empty(old(self).root()),
            forall|v: u64| #[trigger] final(mem).entry(old(self).root(), v) is None,
            forall|r: u64, v: u64| r != old(self).root() ==> #[trigger] final(mem).entry(r, v) == old(mem).entry(r, v),
            final(mem).leaf_tables@ == old(mem).leaf_tables@,
            final(mem).roots@ == old(mem).roots@,
            final(mem).frames.end == old(mem).frames.end,
            forall|p: u64| #[trigger]
                final(mem).frames.is_allocated(p) <==> (old(mem).frames.is_allocated(p)
                    && !old(mem).owns_data(old(self).root(), p)),
    {
        self.areas.clear();
        mem.unmap_all(self.page_table.root_ppn);
    }
}


/// `i` is the first of the `areas` that starts at the page `vpn`.
pub open spec fn first_area_at(areas: Seq<MapArea>, vpn: u64, i: int) -> bool {
    &&& 0 <= i < areas.len()
    &&& areas[i].start_vpn == vpn
    &&& forall|j: int| 0 <= j < i ==> (#[trigger] areas[j]).start_vpn != vpn
}

/// Some of the `areas` starts at the page `vpn`.
pub open spec fn has_area_at(areas: Seq<MapArea>, vpn: u64) -> bool {
    exists|i: int| 0 <= i < areas.len() && (#[trigger] areas[i]).start_vpn == vpn
}

impl MemorySet {
    /// Position of the first area that starts at the page `vpn`, if any.
    pub fn find_area_at(&self, vpn: u64) -> (r: Option<usize>)
        ensures
            match r {
                Some(i) => first_area_at(self.areas@, vpn, i as int),
                None => !has_area_at(self.areas@, vpn),
            },
    {
        let mut i: usize = 0;
        while i < self.areas.len()
            invariant
                i <= self.areas@.len(),
                forall|j: int| 0 <= j < i ==> (#[trigger] self.areas@[j]).start_vpn != vpn,
            decreases self.areas@.len() - i,
        {
            if self.areas[i].start_vpn == vpn {
                return Some(i);
            }
            i = i + 1;
        }
        None
    }

    /// Grows the area that starts at the page holding `start_va` so that it
    /// ends at the first page at or above `new_end_va`, mapping the added
    /// pages to fresh frames. Returns false, changing nothing, when no area
    /// starts there.
    pub fn append_to(&mut self, mem: &mut PhysMemory, start_va: u64, new_end_va: u64) -> (r: bool)
        requires
            old(mem).wf(),
            old(self).wf(&*old(mem)),
            forall|i: int| first_area_at(old(self).areas@, spec_floor(start_va), i) ==> {
                let a = old(self).areas@[i];
                &&& a.end_vpn <= spec_ceil(new_end_va) <= VPN_SPACE
                &&& old(mem).free_frames() >= spec_ceil(new_end_va) - a.end_vpn
                &&& forall|v: u64| a.end_vpn <= v < spec_ceil(new_end_va) ==> !old(mem).is_mapped(old(self).root(), v)
            },
        ensures
            final(mem).wf(),
            final(self).wf(&*final(mem)),
            r == has_area_at(old(self).areas@, spec_floor(start_va)),
            !r ==> *final(self) == *old(self) && *final(mem) == *old(mem),
            final(self).page_table == old(self).page_table,
            final(mem).roots@ == old(mem).roots@,
            r ==> exists|i: int| first_area_at(old(self).areas@, spec_floor(start_va), i) && {
                let a = old(self).areas@[i];
                &&& final(self).areas@ == old(self).areas@.update(i, MapArea { end_vpn: spec_ceil(new_end_va) as u64, ..a })
                &&& forall|v: u64| a.end_vpn <= v < spec_ceil(new_end_va) ==> (#[trigger] final(mem).entry(old(self).root(), v) matches Some(e)
                    && e.flags == entry_flags(a.map_perm))
                &&& forall|rt: u64, v: u64| !(rt == old(self).root() && a.end_vpn <= v < spec_ceil(new_end_va)) ==>
                    #[trigger] final(mem).entry(rt, v) == old(mem).entry(rt, v)
                &&& final(mem).free_frames() + (spec_ceil(new_end_va) - a.end_vpn) == old(mem).free_frames()
            },
    {
        match self.find_area_at(floor(start_va)) {
            None => false,
            Some(i) => {
                let a = self.areas[i];
                let new_end = ceil(new_end_va);
                let ghost o = *self;
                let root = self.page_table.root_ppn;
                let mut vpn = a.end_vpn;
                while vpn < new_end
                    invariant
                        a == o.areas@[i as int],
                        a.end_vpn <= vpn <= new_end <= VPN_SPACE,
                        root == o.root(),
                        *self == o,
                        mem.wf(),
                        mem.is_root(root),
                        mem.roots@ == old(mem).roots@,
                        mem.frames.end == old(mem).frames.end,
                        mem.free_frames() + (vpn - a.end_vpn) == old(mem).free_frames(),
                        old(mem).free_frames() >= new_end - a.end_vpn,
                        forall|v: u64|
                            a.end_vpn <= v < vpn ==> (#[trigger] mem.entry(root, v) matches Some(e)
                                && e.flags == entry_flags(a.map_perm)),
                        forall|rt: u64, v: u64|
                            !(rt == root && a.end_vpn <= v < vpn) ==> #[trigger] mem.entry(rt, v) == old(mem).entry(rt, v),
                        forall|v: u64| a.end_vpn <= v < new_end ==> !old(mem).is_mapped(root, v),
                    decreases new_end - vpn,
                {
                    assert(mem.entry(root, vpn) == old(mem).entry(root, vpn));
                    assert(!old(mem).is_mapped(root, vpn));
                    mem.map_framed(root, vpn, a.map_perm);
                    vpn = vpn + 1;
                }
                self.areas.set(i, MapArea { start_vpn: a.start_vpn, end_vpn: new_end, map_perm: a.map_perm });
                proof {
                    assert forall|k: int| 0 <= k < self.areas@.len() implies {
                        let b = #[trigger] self.areas@[k];
                        b.start_vpn <= b.end_vpn <= VPN_SPACE
                    } by {
                        assert(o.areas@[k].start_vpn <= o.areas@[k].end_vpn <= VPN_SPACE);
                    }
                    assert(self.areas@ == o.areas@.update(i as int, MapArea { end_vpn: new_end, ..a }));
                }
                true
            },
        }
    }

    /// Shrinks the area that starts at the page holding `start_va` so that
    /// it ends at the first page at or above `new_end_va`, unmapping the
    /// dropped pages and giving their frames back. Returns false, changing
    /// nothing, when no area starts there.
    pub fn shrink_to(&mut self, mem: &mut PhysMemory, start_va: u64, new_end_va: u64) -> (r: bool)
        requires
            old(mem).wf(),
            old(self).wf(&*old(mem)),
            forall|i: int| first_area_at(old(self).areas@, spec_floor(start_va), i) ==> {
                let a = old(self).areas@[i];
                &&& a.start_vpn <= spec_ceil(new_end_va) <= a.end_vpn
                &&& forall|v: u64| spec_ceil(new_end_va) <= v < a.end_vpn ==> old(mem).is_mapped(old(self).root(), v)
            },
        ensures
            final(mem).wf(),
            final(self).wf(&*final(mem)),
            r == has_area_at(old(self).areas@, spec_floor(start_va)),
            !r ==> *final(self) == *old(self) && *final(mem) == *old(mem),
            final(self).page_table == old(self).page_table,
            final(mem).roots@ == old(mem).roots@,
            r ==> exists|i: int| first_area_at(old(self).areas@, spec_floor(start_va), i) && {
                let a = old(self).areas@[i];
                &&& final(self).areas@ == old(self).areas@.update(i, MapArea { end_vpn: spec_ceil(new_end_va) as u64, ..a })
                &&& forall|v: u64| spec_ceil(new_end_va) <= v < a.end_vpn ==> #[trigger] final(mem).entry(old(self).root(), v) is None
                &&& forall|rt: u64, v: u64| !(rt == old(self).root() && spec_ceil(new_end_va) <= v < a.end_vpn) ==>
                    #[trigger] final(mem).entry(rt, v) == old(mem).entry(rt, v)
                &&& final(mem).free_frames() == old(mem).free_frames() + (a.end_vpn - spec_ceil(new_end_va))
            },
    {
        match self.find_area_at(floor(start_va)) {
            None => false,
            Some(i) => {
                let a = self.areas[i];
                let new_end = ceil(new_end_va);
                let ghost o = *self;
                let root = self.page_table.root_ppn;
                let mut vpn = new_end;
                while vpn < a.end_vpn
                    invariant
                        a == o.areas@[i as int],
                        a.start_vpn <= new_end <= vpn <= a.end_vpn,
                        root == o.root(),
                        *self == o,
                        mem.wf(),
                        mem.roots@ == old(mem).roots@,
                        mem.free_frames() == old(mem).free_frames() + (vpn - new_end),
                        forall|v: u64| new_end <= v < vpn ==> #[trigger] mem.entry(root, v) is None,
                        forall|rt: u64, v: u64|
                            !(rt == root && new_end <= v < vpn) ==> #[trigger] mem.entry(rt, v) == old(mem).entry(rt, v),
                        forall|v: u64| new_end <= v < a.end_vpn ==> old(mem).is_mapped(root, v),
                    decreases a.end_vpn - vpn,
                {
                    assert(mem.entry(root, vpn) == old(mem).entry(root, vpn));
                    assert(old(mem).is_mapped(root, vpn));
                    mem.unmap_framed(root, vpn);
                    vpn = vpn + 1;
                }
                self.areas.set(i, MapArea { start_vpn: a.start_vpn, end_vpn: new_end, map_perm: a.map_perm });
                proof {
                    assert forall|k: int| 0 <= k < self.areas@.len() implies {
                        let b = #[trigger] self.areas@[k];
                        b.start_vpn <= b.end_vpn <= VPN_SPACE
                    } by {
                        assert(o.areas@[k].start_vpn <= o.areas@[k].end_vpn <= VPN_SPACE);
                    }
                    assert(self.areas@ == o.areas@.update(i as int, MapArea { end_vpn: new_end, ..a }));
                }
                true
            },
        }
    }
}


/// Moving the end of one area keeps every valid page inside some area,
/// provided the pages cut off were unmapped and the pages added lie in the
/// grown area.
pub proof fn lemma_resize_keeps_cover(
    old_areas: Seq<MapArea>,
    new_areas: Seq<MapArea>,
    k: int,
    new_end: u64,
    old_mem: PhysMemory,
    new_mem: PhysMemory,
    root: u64,
)
    requires
        0 <= k < old_areas.len(),
        old_areas[k].start_vpn <= new_end,
        old_areas[k].start_vpn <= old_areas[k].end_vpn,
        new_areas == old_areas.update(k, MapArea { end_vpn: new_end, ..old_areas[k] }),
        forall|v: u64| #[trigger] old_mem.entry(root, v) is Some ==> areas_cover(old_areas, v),
        forall|v: u64| #[trigger] new_mem.entry(root, v) is Some ==> old_mem.entry(root, v) is Some
            || (old_areas[k].end_vpn <= v < new_end),
        forall|v: u64| new_end <= v < old_areas[k].end_vpn ==> #[trigger] new_mem.entry(root, v) is None,
    ensures
        forall|v: u64| #[trigger] new_mem.entry(root, v) is Some ==> areas_cover(new_areas, v),
{
    assert forall|v: u64| #[trigger] new_mem.entry(root, v) is Some implies areas_cover(new_areas, v) by {
        if old_areas[k].end_vpn <= v < new_end {
            assert(new_areas[k].spec_contains(v));
        } else {
            assert(old_mem.entry(root, v) is Some);
            let m = choose|m: int| 0 <= m < old_areas.len() && (#[trigger] old_areas[m]).spec_contains(v);
            if m == k {
                if v >= new_end {
                    assert(new_end <= v < old_areas[k].end_vpn);
                    assert(new_mem.entry(root, v) is None);
                }
                assert(new_areas[k].spec_contains(v));
            } else {
                assert(new_areas[m].spec_contains(v));
            }
        }
    }
}


/// The total size of a prefix of the areas grows area by area.
pub proof fn lemma_total_pages_prefix(areas: Seq<MapArea>, i: int)
    requires
        0 <= i < areas.len(),
        forall|k: int| 0 <= k < areas.len() ==> (#[trigger] areas[k]).start_vpn <= areas[k].end_vpn,
    ensures
        total_pages(areas.subrange(0, i + 1)) == total_pages(areas.subrange(0, i))
            + (areas[i].end_vpn - areas[i].start_vpn),
        total_pages(areas.subrange(0, i + 1)) <= total_pages(areas),
{
    assert(areas.subrange(0, i + 1).drop_last() =~= areas.subrange(0, i));
    lemma_total_pages_mono(areas, i + 1, areas.len() as int);
    assert(areas.subrange(0, areas.len() as int) =~= areas);
}

/// A longer prefix of the areas holds at least as many pages.
pub proof fn lemma_total_pages_mono(areas: Seq<MapArea>, i: int, j: int)
    requires
        0 <= i <= j <= areas.len(),
        forall|k: int| 0 <= k < areas.len() ==> (#[trigger] areas[k]).start_vpn <= areas[k].end_vpn,
    ensures
        total_pages(areas.subrange(0, i)) <= total_pages(areas.subrange(0, j)),
    decreases j - i,
{
    if i < j {
        lemma_total_pages_mono(areas, i, j - 1);
        assert(areas.subrange(0, j).drop_last() =~= areas.subrange(0, j - 1));
    }
}

impl MemorySet {
    /// A copy of the address space `user_space`: a new page table holding
    /// the same areas, every page of them mapped to a fresh frame with the
    /// area's permissions.
    pub fn from_existed_user(user_space: &MemorySet, mem: &mut PhysMemory) -> (r: MemorySet)
        requires
            old(mem).wf(),
            user_space.wf(&*old(mem)),
            areas_disjoint(user_space.areas@),
            old(mem).free_frames() >= 1 + total_pages(user_space.areas@),
        ensures
            final(mem).wf(),
            r.wf(&*final(mem)),
            r.areas@ == user_space.areas@,
            !old(mem).is_root(r.root()),
            final(mem).roots@ == old(mem).roots@.push(r.root()),
            forall|v: u64| #[trigger] final(mem).is_mapped(r.root(), v) <==> areas_cover(user_space.areas@, v),
            forall|k: int, v: u64| 0 <= k < user_space.areas@.len() && (#[trigger] user_space.areas@[k]).spec_contains(v)
                ==> ((#[trigger] final(mem).entry(r.root(), v)) matches Some(e) && e.flags == entry_flags(user_space.areas@[k].map_perm)),
            forall|rt: u64, v: u64| rt != r.root() ==> #[trigger] final(mem).entry(rt, v) == old(mem).entry(rt, v),
            final(mem).free_frames() + 1 + total_pages(user_space.areas@) == old(mem).free_frames(),
    {
        let mut ms = MemorySet::new_bare(mem);
        let ghost root = ms.root();
        let ghost areas = user_space.areas@;
        let ghost m0 = *mem;
        proof {
            assert forall|rt: u64, v: u64| #[trigger] m0.entry(rt, v) == old(mem).entry(rt, v) by {}
        }
        let mut i: usize = 0;
        while i < user_space.areas.len()
            invariant
                i <= areas.len(),
                areas == user_space.areas@,
                user_space.wf(&*old(mem)),
                areas_disjoint(areas),
                old(mem).free_frames() >= 1 + total_pages(areas),
                !old(mem).is_root(root),
                ms.root() == root,
                ms.areas@ == areas.subrange(0, i as int),
                mem.wf(),
                ms.wf(&*mem),
                mem.roots@ == old(mem).roots@.push(root),
                mem.free_frames() + 1 + total_pages(areas.subrange(0, i as int)) == old(mem).free_frames(),
                forall|v: u64| #[trigger] mem.is_mapped(root, v) <==> areas_cover(areas.subrange(0, i as int), v),
                forall|k: int, v: u64| 0 <= k < i && (#[trigger] areas[k]).spec_contains(v)
                    ==> ((#[trigger] mem.entry(root, v)) matches Some(e) && e.flags == entry_flags(areas[k].map_perm)),
                forall|rt: u64, v: u64| rt != root ==> #[trigger] mem.entry(rt, v) == old(mem).entry(rt, v),
            decreases areas.len() - i,
        {
            let area = user_space.areas[i];
            proof {
                assert(areas[i as int].start_vpn <= areas[i as int].end_vpn <= VPN_SPACE);
                assert forall|k: int| 0 <= k < areas.len() implies (#[trigger] areas[k]).start_vpn <= areas[k].end_vpn by {
                    assert(areas[k].start_vpn <= areas[k].end_vpn <= VPN_SPACE);
                }
                lemma_total_pages_prefix(areas, i as int);
                assert forall|v: u64| area.start_vpn <= v < area.end_vpn implies !mem.is_mapped(ms.root(), v) by {
                    if mem.is_mapped(root, v) {
                        let pre = areas.subrange(0, i as int);
                        let k = choose|k: int| 0 <= k < pre.len() && (#[trigger] pre[k]).spec_contains(v);
                        assert(pre[k] == areas[k]);
                        assert(areas[k].spec_contains(v) && areas[i as int].spec_contains(v));
                    }
                }
            }
            let ghost before = *mem;
            ms.push(mem, area);
            proof {
                let pre = areas.subrange(0, i as int);
                let pre1 = areas.subrange(0, i as int + 1);
                assert(pre1 =~= pre.push(area));
                assert forall|v: u64| #[trigger] mem.is_mapped(root, v) <==> areas_cover(pre1, v) by {
                    if area.spec_contains(v) {
                        assert(pre1[i as int] == area);
                        assert(pre1[i as int].spec_contains(v));
                        assert(mem.entry(root, v) is Some);
                    } else {
                        assert(mem.entry(root, v) == before.entry(root, v));
                        assert(before.is_mapped(root, v) == areas_cover(pre, v));
                        if areas_cover(pre1, v) {
                            let k = choose|k: int| 0 <= k < pre1.len() && (#[trigger] pre1[k]).spec_contains(v);
                            assert(k < i);
                            assert(pre[k] == pre1[k]);
                        }
                        if areas_cover(pre, v) {
                            let k = choose|k: int| 0 <= k < pre.len() && (#[trigger] pre[k]).spec_contains(v);
                            assert(pre1[k] == pre[k]);
                        }
                    }
                }
                assert forall|k: int, v: u64| 0 <= k < i + 1 && (#[trigger] areas[k]).spec_contains(v)
                    implies ((#[trigger] mem.entry(root, v)) matches Some(e) && e.flags == entry_flags(areas[k].map_perm)) by {
                    if k < i {
                        if area.spec_contains(v) {
                            assert(areas[k].spec_contains(v) && areas[i as int].spec_contains(v));
                        }
                        assert(mem.entry(root, v) == before.entry(root, v));
                    }
                }
                assert(ms.areas@ =~= areas.subrange(0, i as int + 1));
            }
            i = i + 1;
        }
        proof {
            assert(areas.subrange(0, areas.len() as int) =~= areas);
        }
        ms
    }
}


impl MemorySet {
    /// Checks that a frame can be had for this address space: takes one and
    /// gives it straight back, returning its number, or `None` when every
    /// frame is in use. The frames in use stay the same.
    pub fn alloc_frame(&self, mem: &mut PhysMemory) -> (r: Option<u64>)
        requires
            old(mem).wf(),
        ensures
            final(mem).wf(),
            r is Some <==> old(mem).free_frames() > 0,
            final(mem).free_frames() == old(mem).free_frames(),
            final(mem).roots@ == old(mem).roots@,
            final(mem).leaf_tables@ == old(mem).leaf_tables@,
            final(mem).frames.end == old(mem).frames.end,
            forall|rt: u64, v: u64| #[trigger] final(mem).entry(rt, v) == old(mem).entry(rt, v),
            forall|rt: u64, v: u64| #[trigger] final(mem).spec_translate(rt, v) == old(mem).spec_translate(rt, v),
    {
        mem.probe_frame()
    }
}

/// What is left of the area `a` once the pages `[s, e)` are cut out of it:
/// the area itself when it lies outside the range, else its parts below `s`
/// and from `e` on, those that are not empty.
pub open spec fn cut_area(a: MapArea, s: u64, e: u64) -> Seq<MapArea> {
    if a.end_vpn <= s || e <= a.start_vpn {
        seq![a]
    } else {
        (if a.start_vpn < s { seq![MapArea { end_vpn: s, ..a }] } else { Seq::<MapArea>::empty() })
            + (if e < a.end_vpn { seq![MapArea { start_vpn: e, ..a }] } else { Seq::<MapArea>::empty() })
    }
}

/// The areas left once the pages `[s, e)` are cut out of each of `areas`,
/// in order.
pub open spec fn cut_areas(areas: Seq<MapArea>, s: u64, e: u64) -> Seq<MapArea>
    decreases areas.len(),
{
    if areas.len() == 0 {
        Seq::<MapArea>::empty()
    } else {
        cut_areas(areas.drop_last(), s, e) + cut_area(areas.last(), s, e)
    }
}

/// Cutting `[s, e)` out of areas leaves exactly the pages they covered
/// outside the range, keeps each area well ordered and within `VPN_SPACE`,
/// and keeps areas that did not overlap from overlapping.
pub proof fn lemma_cut_areas(areas: Seq<MapArea>, s: u64, e: u64)
    requires
        s <= e,
        forall|k: int| 0 <= k < areas.len() ==> (#[trigger] areas[k]).start_vpn <= areas[k].end_vpn <= VPN_SPACE,
    ensures
        forall|v: u64| #[trigger] areas_cover(cut_areas(areas, s, e), v) <==> (areas_cover(areas, v) && !(s <= v < e)),
        forall|k: int| 0 <= k < cut_areas(areas, s, e).len() ==> (#[trigger] cut_areas(areas, s, e)[k]).start_vpn
            <= cut_areas(areas, s, e)[k].end_vpn <= VPN_SPACE,
        areas_disjoint(areas) ==> areas_disjoint(cut_areas(areas, s, e)),
    decreases areas.len(),
{
    if areas.len() > 0 {
        let pre = areas.drop_last();
        let a = areas.last();
        lemma_cut_areas(pre, s, e);
        let cp = cut_areas(pre, s, e);
        let ca = cut_area(a, s, e);
        let c = cut_areas(areas, s, e);
        assert(c == cp + ca);
        // every piece of the last area lies inside it and outside the range
        assert forall|k: int, v: u64| 0 <= k < ca.len() && #[trigger] ca[k].spec_contains(v)
            implies a.spec_contains(v) && !(s <= v < e) by {}
        assert forall|v: u64| a.spec_contains(v) && !(s <= v < e) implies exists|k: int| 0 <= k < ca.len() && #[trigger] ca[k].spec_contains(v) by {
            if a.end_vpn <= s || e <= a.start_vpn {
                assert(ca[0].spec_contains(v));
            } else if v < s {
                assert(ca[0].spec_contains(v));
            } else {
                if a.start_vpn < s {
                    assert(ca[1].spec_contains(v));
                } else {
                    assert(ca[0].spec_contains(v));
                }
            }
        }
        assert forall|v: u64| #[trigger] areas_cover(c, v) <==> (areas_cover(areas, v) && !(s <= v < e)) by {
            if areas_cover(c, v) {
                let k = choose|k: int| 0 <= k < c.len() && (#[trigger] c[k]).spec_contains(v);
                if k < cp.len() {
                    assert(cp[k] == c[k]);
                    assert(areas_cover(cp, v));
                    let j = choose|j: int| 0 <= j < pre.len() && (#[trigger] pre[j]).spec_contains(v);
                    assert(areas[j] == pre[j]);
                } else {
                    assert(ca[k - cp.len()] == c[k]);
                    assert(areas[areas.len() - 1] == a);
                }
            }
            if areas_cover(areas, v) && !(s <= v < e) {
                let j = choose|j: int| 0 <= j < areas.len() && (#[trigger] areas[j]).spec_contains(v);
                if j < areas.len() - 1 {
                    assert(pre[j] == areas[j]);
                    assert(areas_cover(pre, v));
                    assert(areas_cover(cp, v));
                    let k = choose|k: int| 0 <= k < cp.len() && (#[trigger] cp[k]).spec_contains(v);
                    assert(c[k] == cp[k]);
                } else {
                    assert(a.spec_contains(v));
                    let k = choose|k: int| 0 <= k < ca.len() && #[trigger] ca[k].spec_contains(v);
                    assert(c[cp.len() + k] == ca[k]);
                }
            }
        }
        assert forall|k: int| 0 <= k < c.len() implies (#[trigger] c[k]).start_vpn <= c[k].end_vpn <= VPN_SPACE by {
            if k < cp.len() {
                assert(cp[k] == c[k]);
            } else {
                assert(ca[k - cp.len()] == c[k]);
                assert(areas[areas.len() - 1] == a);
            }
        }
        if areas_disjoint(areas) {
            assert forall|k: int| 0 <= k < pre.len() implies (#[trigger] pre[k]).start_vpn <= pre[k].end_vpn <= VPN_SPACE by {
                assert(areas[k] == pre[k]);
            }
            assert(areas_disjoint(pre)) by {
                assert forall|i: int, j: int, v: u64| 0 <= i < j < pre.len()
                    implies !(#[trigger] pre[i].spec_contains(v) && #[trigger] pre[j].spec_contains(v)) by {
                    assert(areas[i] == pre[i] && areas[j] == pre[j]);
                    assert(!(areas[i].spec_contains(v) && areas[j].spec_contains(v)));
                }
            }
            assert forall|i: int, j: int, v: u64| 0 <= i < j < c.len()
                implies !(#[trigger] c[i].spec_contains(v) && #[trigger] c[j].spec_contains(v)) by {
                if c[i].spec_contains(v) && c[j].spec_contains(v) {
                    if j < cp.len() {
                        assert(cp[i] == c[i] && cp[j] == c[j]);
                    } else if i < cp.len() {
                        assert(cp[i] == c[i]);
                        assert(ca[j - cp.len()] == c[j]);
                        assert(areas_cover(cp, v));
                        let q = choose|q: int| 0 <= q < pre.len() && (#[trigger] pre[q]).spec_contains(v);
                        assert(areas[q] == pre[q]);
                        assert(areas[areas.len() - 1] == a);
                        assert(!(areas[q].spec_contains(v) && areas[areas.len() - 1].spec_contains(v)));
                    } else {
                        assert(ca[i - cp.len()] == c[i]);
                        assert(ca[j - cp.len()] == c[j]);
                    }
                }
            }
        }
    }
}

impl MemorySet {
    /// Cuts the pages `[s, e)` out of every area: an area outside the range
    /// stays, one inside it goes, and one that overlaps it keeps its parts
    /// below `s` and from `e` on. The page table is left as it is.
    pub fn cut_out(&mut self, s: u64, e: u64)
        ensures
            final(self).page_table == old(self).page_table,
            final(self).areas@ == cut_areas(old(self).areas@, s, e),
    {
        let mut out: Vec<MapArea> = Vec::new();
        let mut i: usize = 0;
        proof {
            assert(old(self).areas@.subrange(0, 0) =~= Seq::<MapArea>::empty());
        }
        while i < self.areas.len()
            invariant
                i <= self.areas@.len(),
                *self == *old(self),
                out@ == cut_areas(self.areas@.subrange(0, i as int), s, e),
            decreases self.areas@.len() - i,
        {
            let a = self.areas[i];
            proof {
                let sub = self.areas@.subrange(0, i as int + 1);
                assert(sub.drop_last() =~= self.areas@.subrange(0, i as int));
                assert(sub.last() == a);
            }
            if a.end_vpn <= s || e <= a.start_vpn {
                out.push(a);
            } else {
                let ghost before = out@;
                if a.start_vpn < s {
                    out.push(MapArea { start_vpn: a.start_vpn, end_vpn: s, map_perm: a.map_perm });
                }
                if e < a.end_vpn {
                    out.push(MapArea { start_vpn: e, end_vpn: a.end_vpn, map_perm: a.map_perm });
                }
                proof {
                    assert(out@ =~= before + cut_area(a, s, e));
                }
            }
            i = i + 1;
            proof {
                assert(out@ =~= cut_areas(self.areas@.subrange(0, i as int), s, e));
            }
        }
        proof {
            assert(self.areas@.subrange(0, self.areas@.len() as int) =~= self.areas@);
        }
        self.areas = out;
    }
}

/// Frame copies that make the table `to` hold what the table `from` holds
/// over the pages of `areas`, area after area and page after page: for each
/// page, the frame it reaches in `from` and the frame it reaches in `to`.
pub open spec fn page_copies(mem: PhysMemory, from: u64, to: u64, areas: Seq<MapArea>) -> Seq<(u64, u64)>
    decreases areas.len(),
{
    if areas.len() == 0 {
        Seq::<(u64, u64)>::empty()
    } else {
        let a = areas.last();
        page_copies(mem, from, to, areas.drop_last()) + Seq::new(
            (a.end_vpn - a.start_vpn) as nat,
            |j: int| (mem.entry(from, (a.start_vpn + j) as u64).unwrap().ppn, mem.entry(to, (a.start_vpn + j) as u64).unwrap().ppn),
        )
    }
}

impl MemorySet {
    /// The frame copies that make `copy`, an address space with the same
    /// areas, hold what this one holds: for each page of each area, the frame
    /// it reaches here and the frame it reaches in `copy`.
    pub fn page_copy_list(&self, copy: &MemorySet, mem: &PhysMemory) -> (r: Vec<(u64, u64)>)
        requires
            mem.wf(),
            self.wf(mem),
            forall|v: u64| #[trigger] self.covers(v) ==> mem.is_mapped(self.root(), v) && mem.is_mapped(copy.root(), v),
        ensures
            r@ == page_copies(*mem, self.root(), copy.root(), self.areas@),
    {
        let from = self.page_table.root_ppn;
        let to = copy.page_table.root_ppn;
        let ghost areas = self.areas@;
        let mut r: Vec<(u64, u64)> = Vec::new();
        let mut i: usize = 0;
        proof {
            assert(areas.subrange(0, 0) =~= Seq::<MapArea>::empty());
        }
        while i < self.areas.len()
            invariant
                i <= areas.len(),
                areas == self.areas@,
                mem.wf(),
                self.wf(mem),
                from == self.root(),
                to == copy.root(),
                forall|v: u64| #[trigger] self.covers(v) ==> mem.is_mapped(from, v) && mem.is_mapped(to, v),
                r@ == page_copies(*mem, from, to, areas.subrange(0, i as int)),
            decreases areas.len() - i,
        {
            let a = self.areas[i];
            let ghost base = r@;
            proof {
                assert(areas[i as int].start_vpn <= areas[i as int].end_vpn <= VPN_SPACE);
            }
            let mut v: u64 = a.start_vpn;
            while v < a.end_vpn
                invariant
                    a == areas[i as int],
                    i < areas.len(),
                    areas == self.areas@,
                    a.start_vpn <= v <= a.end_vpn,
                    a.end_vpn <= VPN_SPACE,
                    mem.wf(),
                    from == self.root(),
                    to == copy.root(),
                    forall|w: u64| #[trigger] self.covers(w) ==> mem.is_mapped(from, w) && mem.is_mapped(to, w),
                    r@ == base + Seq::new((v - a.start_vpn) as nat, |j: int|
                        (mem.entry(from, (a.start_vpn + j) as u64).unwrap().ppn, mem.entry(to, (a.start_vpn + j) as u64).unwrap().ppn)),
                decreases a.end_vpn - v,
            {
                proof {
                    assert(areas[i as int].spec_contains(v));
                    assert(self.covers(v));
                }
                let pp = match mem.translate(from, v) {
                    Some(e) => e.ppn,
                    None => 0,
                };
                let cp = match mem.translate(to, v) {
                    Some(e) => e.ppn,
                    None => 0,
                };
                r.push((pp, cp));
                proof {
                    assert(r@ =~= base + Seq::new((v + 1 - a.start_vpn) as nat, |j: int|
                        (mem.entry(from, (a.start_vpn + j) as u64).unwrap().ppn, mem.entry(to, (a.start_vpn + j) as u64).unwrap().ppn)));
                }
                v = v + 1;
            }
            proof {
                let sub = areas.subrange(0, i as int + 1);
                assert(sub.drop_last() =~= areas.subrange(0, i as int));
                assert(sub.last() == a);
                assert(r@ =~= page_copies(*mem, from, to, sub));
            }
            i = i + 1;
        }
        proof {
            assert(areas.subrange(0, areas.len() as int) =~= areas);
        }
        r
    }
}

/// Frame accounting composes over a step that only adds entries to the
/// table `root` and takes frames for them: the frames in use stay those of
/// `base`, the root, and the frames that the table's entries point to.
pub proof fn lemma_frames_step(base: PhysMemory, before: PhysMemory, after: PhysMemory, root: u64)
    requires
        forall|p: u64| #[trigger] before.frames.is_allocated(p) <==> (base.frames.is_allocated(p) || p == root
            || before.owns_data(root, p)),
        forall|p: u64| #[trigger] after.frames.is_allocated(p) <==> (before.frames.is_allocated(p)
            || after.owns_data(root, p)),
        forall|v: u64| (#[trigger] before.entry(root, v)) is Some ==> after.entry(root, v) == before.entry(root, v),
    ensures
        forall|p: u64| #[trigger] after.frames.is_allocated(p) <==> (base.frames.is_allocated(p) || p == root
            || after.owns_data(root, p)),
{
    assert forall|p: u64| #[trigger] after.frames.is_allocated(p) <==> (base.frames.is_allocated(p) || p == root
        || after.owns_data(root, p)) by {
        if before.owns_data(root, p) {
            let v = choose|v: u64| #[trigger] before.entry(root, v) matches Some(e) && e.ppn == p;
            assert(after.entry(root, v) == before.entry(root, v));
            assert(after.owns_data(root, p));
        }
    }
}

} // verus!
