use vstd::prelude::*;
use crate::config::{PAGE_SIZE, VPN_SPACE, USER_STACK_SIZE};
use crate::address::{spec_floor, spec_ceil, page_start};
use crate::page_table::{PhysMemory, entry_flags};
use crate::memory_set::{MemorySet, MapArea, areas_cover, total_pages, MAP_PERM_R, MAP_PERM_W, MAP_PERM_U};

verus! {

/// A loadable program segment: the virtual range `[start_va, end_va)` and
/// its permission bits (readable, writable, executable).
#[derive(Clone, Copy)]
pub struct Segment {
    pub start_va: u64,
    pub end_va: u64,
    pub perm: u8,
}

/// An application that the loader can start, by name: its program segments
/// as decoded from the executable, and its entry point.
pub struct AppImage {
    pub name: Vec<u8>,
    pub segments: Vec<Segment>,
    pub entry: u64,
}

/// First page of the page-aligned slot that holds a task's trap context,
/// right below the trampoline page at the top of the address space.
pub const TRAP_CONTEXT_VPN: u64 = 0x7ff_fffe;

/// Pages of the user stack.
pub open spec fn stack_pages() -> u64 {
    (USER_STACK_SIZE / PAGE_SIZE) as u64
}

/// The area that a segment becomes: its pages, its permissions and user
/// access.
pub open spec fn segment_area(s: Segment) -> MapArea {
    MapArea {
        start_vpn: spec_floor(s.start_va),
        end_vpn: spec_ceil(s.end_va) as u64,
        map_perm: (s.perm | MAP_PERM_U) as u8,
    }
}

/// First page past the last segment, or 0 when there is none.
pub open spec fn segments_end(segs: Seq<Segment>) -> u64 {
    if segs.len() == 0 {
        0
    } else {
        spec_ceil(segs.last().end_va) as u64
    }
}

/// The areas of a freshly loaded application: one per segment, then the
/// user stack one guard page above the last segment, then the (empty) heap
/// at the top of the stack, then the trap-context page.
pub open spec fn app_areas(app: &AppImage) -> Seq<MapArea> {
    let segs = app.segments@;
    let stack_bottom = (segments_end(segs) + 1) as u64;
    let stack_top = (stack_bottom + stack_pages()) as u64;
    segs.map_values(|s: Segment| segment_area(s)) + seq![
        MapArea { start_vpn: stack_bottom, end_vpn: stack_top, map_perm: MAP_PERM_R | MAP_PERM_W | MAP_PERM_U },
        MapArea { start_vpn: stack_top, end_vpn: stack_top, map_perm: MAP_PERM_R | MAP_PERM_W | MAP_PERM_U },
        MapArea { start_vpn: TRAP_CONTEXT_VPN, end_vpn: (TRAP_CONTEXT_VPN + 1) as u64, map_perm: MAP_PERM_R | MAP_PERM_W },
    ]
}

/// Top of the user stack of a freshly loaded application.
pub open spec fn app_stack_top(app: &AppImage) -> u64 {
    ((segments_end(app.segments@) + 1 + stack_pages()) * PAGE_SIZE) as u64
}

/// The application's segments can be loaded: each is a well-ordered range,
/// they follow each other in rising order without sharing a page, and the
/// guard page and the stack fit below the trap-context page.
pub open spec fn app_fits(app: &AppImage) -> bool {
    let segs = app.segments@;
    &&& forall|i: int| 0 <= i < segs.len() ==> spec_floor((#[trigger] segs[i]).start_va) <= spec_ceil(segs[i].end_va)
    &&& forall|i: int, j: int| 0 <= i < j < segs.len() ==> spec_ceil((#[trigger] segs[i]).end_va) <= spec_floor((#[trigger] segs[j]).start_va)
    &&& segments_end(segs) + 1 + stack_pages() <= TRAP_CONTEXT_VPN
}

/// The areas that the application's segments become.
pub open spec fn segment_areas(app: &AppImage) -> Seq<MapArea> {
    app.segments@.map_values(|s: Segment| segment_area(s))
}

/// Frames needed to load the application: the root of its page table, the
/// pages of its segments, its stack and its trap-context page.
pub open spec fn app_frames(app: &AppImage) -> nat {
    (1 + total_pages(segment_areas(app)) + stack_pages() + 1) as nat
}

/// Position of the application named `name`, if there is one.
pub fn find_app(apps: &Vec<AppImage>, name: &[u8]) -> (r: Option<usize>)
    ensures
        match r {
            Some(i) => i < apps@.len() && apps@[i as int].name@ == name@,
            None => forall|i: int| 0 <= i < apps@.len() ==> (#[trigger] apps@[i]).name@ != name@,
        },
{
    let mut i: usize = 0;
    while i < apps.len()
        invariant
            i <= apps@.len(),
            forall|k: int| 0 <= k < i ==> (#[trigger] apps@[k]).name@ != name@,
        decreases apps@.len() - i,
    {
        if bytes_equal(&apps[i].name, name) {
            return Some(i);
        }
        i = i + 1;
    }
    None
}

/// Whether the bytes of `a` and `b` are the same.
pub fn bytes_equal(a: &Vec<u8>, b: &[u8]) -> (r: bool)
    ensures
        r == (a@ == b@),
{
    if a.len() != b.len() {
        return false;
    }
    let mut i: usize = 0;
    while i < a.len()
        invariant
            i <= a@.len(),
            a@.len() == b@.len(),
            forall|k: int| 0 <= k < i ==> a@[k] == b@[k],
        decreases a@.len() - i,
    {
        if a[i] != b[i] {
            return false;
        }
        i = i + 1;
    }
    assert(a@ =~= b@);
    true
}


impl MemorySet {
    /// The address space of a freshly loaded application: a new page table
    /// holding `app_areas(app)`, every page of them mapped to a fresh frame.
    /// Returns it with the top of the user stack and the entry point.
    pub fn from_app(app: &AppImage, mem: &mut PhysMemory) -> (r: (MemorySet, u64, u64))
        requires
            old(mem).wf(),
            app_fits(app),
            old(mem).free_frames() >= app_frames(app),
        ensures
            final(mem).wf(),
            r.0.wf(&*final(mem)),
            r.0.areas@ == app_areas(app),
            r.1 == app_stack_top(app),
            r.2 == app.entry,
            !old(mem).is_root(r.0.root()),
            final(mem).roots@ == old(mem).roots@.push(r.0.root()),
            forall|v: u64| #[trigger] final(mem).is_mapped(r.0.root(), v) <==> areas_cover(app_areas(app), v),
            forall|k: int, v: u64| 0 <= k < app_areas(app).len() && (#[trigger] app_areas(app)[k]).spec_contains(v)
                ==> ((#[trigger] final(mem).entry(r.0.root(), v)) matches Some(e)
                    && e.flags == entry_flags(app_areas(app)[k].map_perm)),
            forall|rt: u64, v: u64| rt != r.0.root() ==> #[trigger] final(mem).entry(rt, v) == old(mem).entry(rt, v),
            final(mem).free_frames() + app_frames(app) == old(mem).free_frames(),
            forall|p: u64| #[trigger] final(mem).frames.is_allocated(p) <==> (old(mem).frames.is_allocated(p)
                || p == r.0.root() || final(mem).owns_data(r.0.root(), p)),
    {
        let mut ms = MemorySet::new_bare(mem);
        let ghost root = ms.root();
        proof {
            assert forall|p: u64| #[trigger] mem.frames.is_allocated(p) <==> (old(mem).frames.is_allocated(p)
                || p == root || mem.owns_data(root, p)) by {
                if mem.owns_data(root, p) {
                    let v = choose|v: u64| #[trigger] mem.entry(root, v) matches Some(e) && e.ppn == p;
                    assert(mem.spec_translate(root, v) is None);
                }
            }
        }
        let ghost segs = app.segments@;
        let ghost sa = segment_areas(app);
        let mut max_end_vpn: u64 = 0;
        let mut i: usize = 0;
        proof {
            assert(ms.areas@ =~= sa.subrange(0, 0));
        }
        while i < app.segments.len()
            invariant
                i <= segs.len(),
                segs == app.segments@,
                sa == segment_areas(app),
                sa.len() == segs.len(),
                app_fits(app),
                old(mem).free_frames() >= app_frames(app),
                !old(mem).is_root(root),
                ms.root() == root,
                ms.areas@ == sa.subrange(0, i as int),
                max_end_vpn == segments_end(segs.subrange(0, i as int)),
                mem.wf(),
                ms.wf(&*mem),
                mem.roots@ == old(mem).roots@.push(root),
                mem.free_frames() + 1 + total_pages(sa.subrange(0, i as int)) == old(mem).free_frames(),
                forall|v: u64| #[trigger] mem.is_mapped(root, v) <==> areas_cover(sa.subrange(0, i as int), v),
                forall|k: int, v: u64| 0 <= k < i && (#[trigger] sa[k]).spec_contains(v)
                    ==> ((#[trigger] mem.entry(root, v)) matches Some(e) && e.flags == entry_flags(sa[k].map_perm)),
                forall|rt: u64, v: u64| rt != root ==> #[trigger] mem.entry(rt, v) == old(mem).entry(rt, v),
                forall|p: u64| #[trigger] mem.frames.is_allocated(p) <==> (old(mem).frames.is_allocated(p)
                    || p == root || mem.owns_data(root, p)),
            decreases segs.len() - i,
        {
            let seg = app.segments[i];
            proof {
                assert(sa[i as int] == segment_area(segs[i as int]));
                lemma_segments_fit(app, i as int);
            }
            let area = MapArea::new(seg.start_va, seg.end_va, seg.perm | MAP_PERM_U);
            max_end_vpn = area.end_vpn;
            proof {
                assert(area == sa[i as int]);
                assert forall|k: int| 0 <= k < sa.len() implies (#[trigger] sa[k]).start_vpn <= sa[k].end_vpn by {
                    assert(sa[k] == segment_area(segs[k]));
                }
                lemma_total_pages_prefix_of(sa, i as int);
                assert forall|v: u64| area.start_vpn <= v < area.end_vpn implies !mem.is_mapped(ms.root(), v) by {
                    if mem.is_mapped(root, v) {
                        let pre = sa.subrange(0, i as int);
                        let k = choose|k: int| 0 <= k < pre.len() && (#[trigger] pre[k]).spec_contains(v);
                        assert(pre[k] == sa[k]);
                        assert(sa[k] == segment_area(segs[k]));
                        assert(spec_ceil(segs[k].end_va) <= spec_floor(segs[i as int].start_va));
                    }
                }
            }
            let ghost before = *mem;
            ms.push(mem, area);
            proof {
                assert forall|v: u64| (#[trigger] before.entry(root, v)) is Some implies mem.entry(root, v) == before.entry(root, v) by {
                    if area.spec_contains(v) {
                        assert(!before.is_mapped(root, v));
                    }
                }
                crate::memory_set::lemma_frames_step(*old(mem), before, *mem, root);
                let pre = sa.subrange(0, i as int);
                let pre1 = sa.subrange(0, i as int + 1);
                assert(pre1 =~= pre.push(area));
                assert forall|v: u64| #[trigger] mem.is_mapped(root, v) <==> areas_cover(pre1, v) by {
                    if area.spec_contains(v) {
                        assert(pre1[i as int].spec_contains(v));
                        assert(mem.entry(root, v) is Some);
                    } else {
                        assert(mem.entry(root, v) == before.entry(root, v));
                        assert(before.is_mapped(root, v) == areas_cover(pre, v));
                        if areas_cover(pre1, v) {
                            let k = choose|k: int| 0 <= k < pre1.len() && (#[trigger] pre1[k]).spec_contains(v);
                            assert(k < i);
                            assert(pre[k] == pre1[k]);
                        }
                        if areas_cover(pre, v) {
                            let k = choose|k: int| 0 <= k < pre.len() && (#[trigger] pre[k]).spec_contains(v);
                            assert(pre1[k] == pre[k]);
                        }
                    }
                }
                assert forall|k: int, v: u64| 0 <= k < i + 1 && (#[trigger] sa[k]).spec_contains(v)
                    implies ((#[trigger] mem.entry(root, v)) matches Some(e) && e.flags == entry_flags(sa[k].map_perm)) by {
                    if k < i {
                        if area.spec_contains(v) {
                            assert(sa[k] == segment_area(segs[k]));
                            assert(spec_ceil(segs[k].end_va) <= spec_floor(segs[i as int].start_va));
                        }
                        assert(mem.entry(root, v) == before.entry(root, v));
                    }
                }
                assert(ms.areas@ =~= pre1);
                assert(segs.subrange(0, i as int + 1).last() == segs[i as int]);
            }
            i = i + 1;
        }
        proof {
            assert(sa.subrange(0, sa.len() as int) =~= sa);
            assert(segs.subrange(0, segs.len() as int) =~= segs);
        }
        let stack_bottom = page_start(max_end_vpn + 1);
        let stack_top = page_start(max_end_vpn + 1 + USER_STACK_SIZE / PAGE_SIZE);
        let ghost m1 = *mem;
        let ghost stack = MapArea { start_vpn: (max_end_vpn + 1) as u64, end_vpn: (max_end_vpn + 3) as u64,
            map_perm: MAP_PERM_R | MAP_PERM_W | MAP_PERM_U };
        proof {
            assert forall|v: u64| stack.start_vpn <= v < stack.end_vpn implies !mem.is_mapped(ms.root(), v) by {
                if mem.is_mapped(root, v) {
                    let k = choose|k: int| 0 <= k < sa.len() && (#[trigger] sa[k]).spec_contains(v);
                    lemma_segment_below_end(app, k);
                }
            }
        }
        ms.insert_framed_area(mem, stack_bottom, stack_top, MAP_PERM_R | MAP_PERM_W | MAP_PERM_U);
        let ghost m2 = *mem;
        proof {
            assert(spec_floor(stack_bottom) == stack.start_vpn && spec_ceil(stack_top) == stack.end_vpn);
            assert forall|v: u64| (#[trigger] m1.entry(root, v)) is Some implies m2.entry(root, v) == m1.entry(root, v) by {
                if stack.spec_contains(v) {
                    assert(!m1.is_mapped(root, v));
                }
            }
            crate::memory_set::lemma_frames_step(*old(mem), m1, m2, root);
        }
        ms.insert_framed_area(mem, stack_top, stack_top, MAP_PERM_R | MAP_PERM_W | MAP_PERM_U);
        let ghost m3 = *mem;
        proof {
            assert forall|v: u64| (#[trigger] m2.entry(root, v)) is Some implies m3.entry(root, v) == m2.entry(root, v) by {}
            crate::memory_set::lemma_frames_step(*old(mem), m2, m3, root);
        }
        let trap = MapArea { start_vpn: TRAP_CONTEXT_VPN, end_vpn: TRAP_CONTEXT_VPN + 1, map_perm: MAP_PERM_R | MAP_PERM_W };
        proof {
            assert(!mem.is_mapped(root, TRAP_CONTEXT_VPN)) by {
                assert(mem.entry(root, TRAP_CONTEXT_VPN) == m2.entry(root, TRAP_CONTEXT_VPN));
                assert(m2.entry(root, TRAP_CONTEXT_VPN) == m1.entry(root, TRAP_CONTEXT_VPN));
                if m1.is_mapped(root, TRAP_CONTEXT_VPN) {
                    let k = choose|k: int| 0 <= k < sa.len() && (#[trigger] sa[k]).spec_contains(TRAP_CONTEXT_VPN);
                    lemma_segment_below_end(app, k);
                }
            }
        }
        ms.push(mem, trap);
        proof {
            assert forall|v: u64| (#[trigger] m3.entry(root, v)) is Some implies mem.entry(root, v) == m3.entry(root, v) by {
                if trap.spec_contains(v) {
                    assert(v == TRAP_CONTEXT_VPN);
                }
            }
            crate::memory_set::lemma_frames_step(*old(mem), m3, *mem, root);
            let aa = app_areas(app);
            assert(ms.areas@ =~= aa);
            assert(aa.len() == sa.len() + 3);
            assert forall|k: int| 0 <= k < sa.len() implies #[trigger] aa[k] == sa[k] by {}
            assert(aa[sa.len() as int] == stack);
            assert(aa[sa.len() as int + 2] == trap);
            assert(aa[sa.len() as int + 1].start_vpn == aa[sa.len() as int + 1].end_vpn);
            assert(spec_floor(stack_bottom) == stack.start_vpn && spec_ceil(stack_top) == stack.end_vpn);
            assert forall|v: u64| #[trigger] mem.is_mapped(root, v) <==> areas_cover(aa, v) by {
                if v == TRAP_CONTEXT_VPN {
                    assert(aa[sa.len() as int + 2].spec_contains(v));
                    assert(mem.entry(root, v) is Some);
                } else if stack.spec_contains(v) {
                    assert(aa[sa.len() as int].spec_contains(v));
                    assert(m2.entry(root, v) is Some);
                    assert(m3.entry(root, v) == m2.entry(root, v));
                    assert(mem.entry(root, v) == m3.entry(root, v));
                } else {
                    assert(m2.entry(root, v) == m1.entry(root, v));
                    assert(m3.entry(root, v) == m2.entry(root, v));
                    assert(mem.entry(root, v) == m3.entry(root, v));
                    assert(m1.is_mapped(root, v) == areas_cover(sa, v));
                    if areas_cover(aa, v) {
                        let k = choose|k: int| 0 <= k < aa.len() && (#[trigger] aa[k]).spec_contains(v);
                        if k < sa.len() {
                            assert(areas_cover(sa, v));
                        }
                    }
                    if areas_cover(sa, v) {
                        let k = choose|k: int| 0 <= k < sa.len() && (#[trigger] sa[k]).spec_contains(v);
                        assert(aa[k].spec_contains(v));
                    }
                }
            }
            assert forall|k: int, v: u64| 0 <= k < aa.len() && (#[trigger] aa[k]).spec_contains(v)
                implies ((#[trigger] mem.entry(root, v)) matches Some(e) && e.flags == entry_flags(aa[k].map_perm)) by {
                assert(spec_floor(stack_bottom) == stack.start_vpn && spec_ceil(stack_top) == stack.end_vpn);
                if k < sa.len() {
                    lemma_segment_below_end(app, k);
                    assert(sa[k].spec_contains(v));
                    assert(m2.entry(root, v) == m1.entry(root, v));
                    assert(m3.entry(root, v) == m2.entry(root, v));
                    assert(mem.entry(root, v) == m3.entry(root, v));
                } else if k == sa.len() {
                    assert(m3.entry(root, v) == m2.entry(root, v));
                    assert(mem.entry(root, v) == m3.entry(root, v));
                }
            }
        }
        (ms, stack_top, app.entry)
    }
}

/// The total size of a prefix of the areas grows area by area.
proof fn lemma_total_pages_prefix_of(areas: Seq<MapArea>, i: int)
    requires
        0 <= i < areas.len(),
        forall|k: int| 0 <= k < areas.len() ==> (#[trigger] areas[k]).start_vpn <= areas[k].end_vpn,
    ensures
        total_pages(areas.subrange(0, i + 1)) == total_pages(areas.subrange(0, i))
            + (areas[i].end_vpn - areas[i].start_vpn),
        total_pages(areas.subrange(0, i + 1)) <= total_pages(areas),
{
    crate::memory_set::lemma_total_pages_prefix(areas, i);
}

/// Each segment's pages lie within the pages of the segment at position `i`
/// bounds: below the end of the last segment.
proof fn lemma_segments_fit(app: &AppImage, i: int)
    requires
        app_fits(app),
        0 <= i < app.segments@.len(),
    ensures
        spec_floor(app.segments@[i].start_va) <= spec_ceil(app.segments@[i].end_va) <= segments_end(app.segments@),
        segments_end(app.segments@) < VPN_SPACE,
{
    let segs = app.segments@;
    if i < segs.len() - 1 {
        assert(spec_ceil(segs[i].end_va) <= spec_floor(segs[segs.len() - 1].start_va));
        assert(spec_floor(segs[segs.len() - 1].start_va) <= spec_ceil(segs[segs.len() - 1].end_va));
    }
}

/// Every page of a segment lies below the first page past the last segment.
proof fn lemma_segment_below_end(app: &AppImage, k: int)
    requires
        app_fits(app),
        0 <= k < app.segments@.len(),
    ensures
        segment_areas(app)[k].end_vpn <= segments_end(app.segments@),
        segment_areas(app)[k].start_vpn <= segment_areas(app)[k].end_vpn,
{
    lemma_segments_fit(app, k);
}

} // verus!
