use vstd::prelude::*;
use crate::config::{PAGE_SIZE, VPN_SPACE};
use crate::address::{virt_addr, floor, page_start, spec_virt_addr, spec_floor, spec_ceil};
use crate::page_table::{entry_flags, leaf_index};
use crate::memory_set::{MemorySet, MapArea, MAP_PERM_R, MAP_PERM_W, MAP_PERM_X, MAP_PERM_U};
use crate::task::{Kernel, range_owns, same_but_areas, same_task, lemma_translate_valid, lemma_wf_after_current_space_change};
use crate::process::mmap_perm;
use crate::process_tree::{children_unique, lemma_children_same, lemma_children_one_changed};

verus! {

// System calls that manage the running task's memory through an address
// space rebuilt from its page-table token, which they install as the task's
// address space once done.

/// Number of pages that cover `len` bytes.
pub open spec fn pages_of(len: u64) -> int {
    (len + PAGE_SIZE - 1) / PAGE_SIZE as int
}

/// First page of the range that the calls below work on.
pub open spec fn first_page(start: u64) -> u64 {
    spec_floor(spec_virt_addr(start))
}

/// A walk of the table `root` finds an entry (valid or not) for some page
/// of `[s, e)`.
pub open spec fn range_translates(mem: crate::page_table::PhysMemory, root: u64, s: int, e: int) -> bool {
    exists|v: u64| s <= v < e && (#[trigger] mem.spec_translate(root, v)) is Some
}

/// `n` areas of one page each, from the page `s` on, with permissions `perm`.
pub open spec fn single_page_areas(s: u64, n: nat, perm: u8) -> Seq<MapArea> {
    Seq::new(n, |i: int| MapArea { start_vpn: (s + i) as u64, end_vpn: (s + i + 1) as u64, map_perm: perm })
}

/// What this `sys_mmap(start, len, prot)` does to the kernel `old`, giving
/// `new` and the result `r`. -1, changing nothing, when `start` is not page
/// aligned, `prot` is not between 1 and 7, the range runs past the last page
/// of the address space, or a walk of the running task's table finds an entry
/// for some page of the range. Otherwise the pages of the range are mapped one
/// by one, each as an area of its own, while frames last; when all are
/// mapped, those areas are added after the task's own and 0 is returned, else
/// -1 is returned and the task's areas stay as they were (the pages mapped so
/// far stay mapped). The only last-level nodes that appear are those of the
/// pages mapped.
pub open spec fn remap_mmap_spec(old: Kernel, new: Kernel, start: u64, len: u64, prot: u64, r: isize) -> bool {
    let n = pages_of(len);
    let s = first_page(start);
    let root = old.cur_root();
    if start % PAGE_SIZE != 0 || !(1 <= prot <= 7) || s + n > VPN_SPACE || range_translates(old.mem, root, s as int, s + n) {
        r == -1 && new == old
    } else {
        let m = if n <= old.mem.free_frames() { n } else { old.mem.free_frames() as int };
        &&& r == (if n <= old.mem.free_frames() { 0isize } else { -1isize })
        &&& new.current == old.current
        &&& new.next_pid == old.next_pid
        &&& new.ready_queue@ == old.ready_queue@
        &&& new.apps == old.apps
        &&& new.tasks@.len() == old.tasks@.len()
        &&& new.cur_index() == old.cur_index()
        &&& forall|j: int| 0 <= j < old.tasks@.len() && j != old.cur_index() ==> #[trigger] new.tasks@[j] == old.tasks@[j]
        &&& same_but_areas(new.cur_task(), old.cur_task())
        &&& new.cur_task().memory_set.areas@ == if n <= old.mem.free_frames() {
            old.cur_task().memory_set.areas@ + single_page_areas(s, n as nat, mmap_perm(prot))
        } else {
            old.cur_task().memory_set.areas@
        }
        &&& forall|v: u64| s <= v < s + m ==> ((#[trigger] new.mem.entry(root, v)) matches Some(e)
            && e.flags == entry_flags(mmap_perm(prot)))
        &&& forall|rt: u64, v: u64| !(rt == root && s <= v < s + m) ==> #[trigger] new.mem.entry(rt, v) == old.mem.entry(rt, v)
        &&& forall|rt: u64, v: u64| #[trigger] new.mem.has_leaf(rt, v) <==> (old.mem.has_leaf(rt, v)
            || (rt == root && exists|u: u64| s <= u < s + m && leaf_index(u) == leaf_index(v)))
        &&& new.mem.roots@ == old.mem.roots@
        &&& new.mem.free_frames() + m == old.mem.free_frames()
    }
}

/// Maps `[start, start + len)` into the running task's address space with
/// the protection `prot` (bit 0 read, bit 1 write, bit 2 execute), page by
/// page, through an address space rebuilt from the task's token; see
/// `remap_mmap_spec`.
pub fn sys_mmap(kernel: &mut Kernel, start: u64, len: u64, prot: u64) -> (r: isize)
    requires
        old(kernel).wf(),
        old(kernel).current is Some,
        start % PAGE_SIZE == 0 && 1 <= prot <= 7 ==> len + PAGE_SIZE <= u64::MAX,
    ensures
        children_unique(*old(kernel)) ==> children_unique(*final(kernel)),
        final(kernel).wf(),
        r == 0 && old(kernel).pages_in_areas() ==> final(kernel).pages_in_areas(),
        remap_mmap_spec(*old(kernel), *final(kernel), start, len, prot, r),
{
    if start % PAGE_SIZE != 0 {
        return -1;
    }
    proof { crate::process::lemma_port_bits(prot); }
    if (prot & !0x7) != 0 || (prot & 0x7) == 0 {
        return -1;
    }
    let len_in_pages = (len + PAGE_SIZE - 1) / PAGE_SIZE;
    let token = kernel.current_user_token();
    let mut memory_set = MemorySet::from_token(token);
    let start_vpn = floor(virt_addr(start));
    let ghost root = kernel.cur_root();
    if len_in_pages > VPN_SPACE - start_vpn {
        return -1;
    }
    let mut i: u64 = 0;
    while i < len_in_pages
        invariant
            kernel.wf(),
            *kernel == *old(kernel),
            kernel.current is Some,
            root == kernel.cur_root(),
            memory_set.root() == root,
            len_in_pages == pages_of(len),
            start_vpn == first_page(start),
            start_vpn + len_in_pages <= VPN_SPACE,
            forall|v: u64| start_vpn <= v < start_vpn + i ==> (#[trigger] kernel.mem.spec_translate(root, v)) is None,
        decreases len_in_pages - i,
    {
        let vpn = start_vpn + i;
        if memory_set.translate(&kernel.mem, vpn).is_some() {
            assert(kernel.mem.spec_translate(root, vpn) is Some);
            return -1;
        }
        i = i + 1;
    }
    let flags: u8 = match prot {
        1 => MAP_PERM_R,
        2 => MAP_PERM_W,
        3 => MAP_PERM_R | MAP_PERM_W,
        4 => MAP_PERM_X,
        5 => MAP_PERM_R | MAP_PERM_X,
        6 => MAP_PERM_W | MAP_PERM_X,
        7 => MAP_PERM_R | MAP_PERM_W | MAP_PERM_X,
        _ => { return -1; },
    };
    let perm = flags | MAP_PERM_U;
    proof {
        assert(perm == mmap_perm(prot)) by {
            assert(2u8 | 16u8 == 18u8) by (bit_vector);
            assert(4u8 | 16u8 == 20u8) by (bit_vector);
            assert((2u8 | 4u8) | 16u8 == 22u8) by (bit_vector);
            assert(8u8 | 16u8 == 24u8) by (bit_vector);
            assert((2u8 | 8u8) | 16u8 == 26u8) by (bit_vector);
            assert((4u8 | 8u8) | 16u8 == 28u8) by (bit_vector);
            assert(((2u8 | 4u8) | 8u8) | 16u8 == 30u8) by (bit_vector);
        }
        kernel.lemma_cur_root_bound();
    }
    let ghost o = *kernel;
    proof {
        if range_translates(o.mem, root, start_vpn as int, start_vpn + len_in_pages) {
            let v = choose|v: u64| start_vpn <= v < start_vpn + len_in_pages && (#[trigger] o.mem.spec_translate(root, v)) is Some;
        }
    }
    let mut i: u64 = 0;
    while i < len_in_pages
        invariant
            !range_translates(o.mem, root, start_vpn as int, start_vpn + len_in_pages),
            start % PAGE_SIZE == 0,
            1 <= prot <= 7,
            o == *old(kernel),
            o.wf(),
            o.current is Some,
            root == o.cur_root(),
            perm == mmap_perm(prot),
            len_in_pages == pages_of(len),
            start_vpn == first_page(start),
            start_vpn + len_in_pages <= VPN_SPACE,
            i <= len_in_pages,
            i <= o.mem.free_frames(),
            forall|v: u64| start_vpn <= v < start_vpn + len_in_pages ==> (#[trigger] o.mem.spec_translate(root, v)) is None,
            kernel.wf(),
            kernel.tasks == o.tasks,
            kernel.current == o.current,
            kernel.next_pid == o.next_pid,
            kernel.ready_queue == o.ready_queue,
            kernel.apps == o.apps,
            kernel.mem.roots@ == o.mem.roots@,
            kernel.mem.free_frames() + i == o.mem.free_frames(),
            memory_set.root() == root,
            memory_set.wf(&kernel.mem),
            memory_set.areas@ == single_page_areas(start_vpn, i as nat, perm),
            forall|v: u64| start_vpn <= v < start_vpn + i ==> ((#[trigger] kernel.mem.entry(root, v)) matches Some(e)
                && e.flags == entry_flags(perm)),
            forall|rt: u64, v: u64| !(rt == root && start_vpn <= v < start_vpn + i) ==>
                #[trigger] kernel.mem.entry(rt, v) == o.mem.entry(rt, v),
            forall|rt: u64, v: u64| #[trigger] kernel.mem.has_leaf(rt, v) <==> (o.mem.has_leaf(rt, v)
                || (rt == root && exists|u: u64| start_vpn <= u < start_vpn + i && leaf_index(u) == leaf_index(v))),
        decreases len_in_pages - i,
    {
        let vpn = start_vpn + i;
        let ghost head = kernel.mem;
        let ppn = memory_set.alloc_frame(&mut kernel.mem);
        proof {
            assert forall|rt: u64, v: u64| #[trigger] kernel.mem.has_leaf(rt, v) <==> (o.mem.has_leaf(rt, v)
                || (rt == root && exists|u: u64| start_vpn <= u < start_vpn + i && leaf_index(u) == leaf_index(v))) by {
                assert(head.has_leaf(rt, v) == kernel.mem.has_leaf(rt, v));
            }
        }
        if ppn.is_none() {
            proof {
                assert(kernel.mem.free_frames() == 0);
                assert(i == o.mem.free_frames());
                assert(!(len_in_pages <= o.mem.free_frames()));
                assert(kernel.tasks@ == o.tasks@);
                lemma_wf_after_current_space_change(o, *kernel);
                assert forall|j: int| 0 <= j < o.tasks@.len() implies #[trigger] kernel.tasks@[j] == o.tasks@[j] by {}
                if children_unique(o) {
                    lemma_children_same(o, *kernel);
                }
            }
            return -1;
        }
        let ghost before = kernel.mem;
        proof {
            assert(kernel.mem.entry(root, vpn) == o.mem.entry(root, vpn));
            lemma_translate_valid(o.mem, root, vpn);
            assert(o.mem.spec_translate(root, vpn) is None);
        }
        let sa = page_start(vpn);
        let ea = page_start(vpn + 1);
        memory_set.insert_framed_area(&mut kernel.mem, sa, ea, perm);
        proof {
            assert(memory_set.areas@ =~= single_page_areas(start_vpn, (i + 1) as nat, perm));
            assert forall|v: u64| start_vpn <= v < start_vpn + i + 1 implies ((#[trigger] kernel.mem.entry(root, v)) matches Some(e)
                && e.flags == entry_flags(perm)) by {
                if v != vpn {
                    assert(kernel.mem.entry(root, v) == before.entry(root, v));
                }
            }
            assert forall|rt: u64, v: u64| #[trigger] kernel.mem.has_leaf(rt, v) <==> (o.mem.has_leaf(rt, v)
                || (rt == root && exists|u: u64| start_vpn <= u < start_vpn + i + 1 && leaf_index(u) == leaf_index(v))) by {
                if rt == root && exists|u: u64| start_vpn <= u < start_vpn + i + 1 && leaf_index(u) == leaf_index(v) {
                    let u = choose|u: u64| start_vpn <= u < start_vpn + i + 1 && leaf_index(u) == leaf_index(v);
                    if u < vpn {
                        assert(start_vpn <= u < start_vpn + i && leaf_index(u) == leaf_index(v));
                        assert(before.has_leaf(rt, v));
                    } else {
                        assert(spec_floor(sa) <= u < spec_ceil(ea));
                    }
                }
                if kernel.mem.has_leaf(rt, v) && !o.mem.has_leaf(rt, v) {
                    if before.has_leaf(rt, v) {
                        let u = choose|u: u64| start_vpn <= u < start_vpn + i && leaf_index(u) == leaf_index(v);
                        assert(start_vpn <= u < start_vpn + i + 1);
                    } else {
                        let w = choose|w: u64| spec_floor(sa) <= w < spec_ceil(ea) && leaf_index(w) == leaf_index(v);
                        assert(start_vpn <= w < start_vpn + i + 1);
                    }
                }
            }
            assert(kernel.tasks@ == o.tasks@);
            lemma_wf_after_current_space_change(o, *kernel);
        }
        i = i + 1;
    }
    let ghost k1 = *kernel;
    proof {
        assert forall|q: int| 0 <= q < memory_set.areas@.len() implies
            (#[trigger] memory_set.areas@[q]).start_vpn <= memory_set.areas@[q].end_vpn <= VPN_SPACE by {}
    }
    kernel.append_current_areas(memory_set.areas);
    proof {
        let new_areas = kernel.cur_task().memory_set.areas@;
        let old_areas = o.cur_task().memory_set.areas@;
        let added = single_page_areas(start_vpn, len_in_pages as nat, perm);
        assert(k1.cur_index() == o.cur_index());
        if o.pages_in_areas() {
            assert forall|v: u64| #[trigger] kernel.mem.entry(root, v) is Some
                implies kernel.tasks@[o.cur_index()].memory_set.covers(v) by {
                if start_vpn <= v < start_vpn + len_in_pages {
                    let q = (v - start_vpn) as int;
                    assert(added[q].spec_contains(v));
                    assert(new_areas[old_areas.len() + q] == added[q]);
                } else {
                    assert(o.mem.entry(root, v) is Some);
                    assert(o.tasks@[o.cur_index()].memory_set.covers(v));
                    let q = choose|q: int| 0 <= q < old_areas.len() && (#[trigger] old_areas[q]).spec_contains(v);
                    assert(new_areas[q] == old_areas[q]);
                }
            }
        }
        lemma_wf_after_current_space_change(o, *kernel);
        if children_unique(o) {
            lemma_children_one_changed(o, *kernel, o.cur_index());
        }
    }
    0
}

/// First page past the range that this `sys_munmap(start, len)` works on:
/// the end of the range, cut at the last page of the address space.
pub open spec fn munmap_end(start: u64, len: u64) -> int {
    if first_page(start) + pages_of(len) > VPN_SPACE {
        VPN_SPACE as int
    } else {
        first_page(start) + pages_of(len)
    }
}

/// What this `sys_munmap(start, len)` does to the kernel `old`, giving `new`
/// and the result `r`: -1, changing nothing, when `start` is not page
/// aligned; otherwise 0, every mapped page of the range (cut at the last
/// page of the address space) is cleared and its frame given back, and
/// nothing else changes: the task's areas and the last-level nodes stay as
/// they were.
pub open spec fn remap_munmap_spec(old: Kernel, new: Kernel, start: u64, len: u64, r: isize) -> bool {
    let s = first_page(start);
    let e = munmap_end(start, len);
    let root = old.cur_root();
    if start % PAGE_SIZE != 0 {
        r == -1 && new == old
    } else {
        &&& r == 0
        &&& new == Kernel { mem: new.mem, ..old }
        &&& forall|v: u64| s <= v < e ==> #[trigger] new.mem.entry(root, v) is None
        &&& forall|rt: u64, v: u64| !(rt == root && s <= v < e) ==> #[trigger] new.mem.entry(rt, v) == old.mem.entry(rt, v)
        &&& new.mem.roots@ == old.mem.roots@
        &&& new.mem.leaf_tables@ == old.mem.leaf_tables@
        &&& forall|p: u64| #[trigger] new.mem.frames.is_allocated(p) <==> (old.mem.frames.is_allocated(p)
            && !range_owns(old.mem, root, s as int, e, p))
    }
}

/// Unmaps `[start, start + len)` from the running task's address space,
/// walking it through an address space rebuilt from the task's token, and
/// gives the frames back; see `remap_munmap_spec`.
pub fn sys_munmap(kernel: &mut Kernel, start: u64, len: u64) -> (r: isize)
    requires
        old(kernel).wf(),
        old(kernel).current is Some,
        start % PAGE_SIZE == 0 ==> len + PAGE_SIZE <= u64::MAX,
    ensures
        children_unique(*old(kernel)) ==> children_unique(*final(kernel)),
        final(kernel).wf(),
        old(kernel).pages_in_areas() ==> final(kernel).pages_in_areas(),
        remap_munmap_spec(*old(kernel), *final(kernel), start, len, r),
{
    if start % PAGE_SIZE != 0 {
        return -1;
    }
    let token = kernel.current_user_token();
    let memory_set = MemorySet::from_token(token);
    let start_vpn = floor(virt_addr(start));
    proof { crate::address::lemma_virt_addr_pages(start); }
    let mut len_in_pages = (len + PAGE_SIZE - 1) / PAGE_SIZE;
    if len_in_pages > VPN_SPACE - start_vpn {
        len_in_pages = VPN_SPACE - start_vpn;
    }
    let ghost root = kernel.cur_root();
    let ghost o = *kernel;
    let mut all_unmapped = true;
    let mut i: u64 = 0;
    while i < len_in_pages
        invariant_except_break
            all_unmapped,
            forall|v: u64| start_vpn <= v < start_vpn + i ==> (#[trigger] kernel.mem.spec_translate(root, v)) is None,
        invariant
            kernel.wf(),
            *kernel == o,
            kernel.current is Some,
            root == kernel.cur_root(),
            memory_set.root() == root,
            start_vpn + len_in_pages == munmap_end(start, len),
            start_vpn == first_page(start),
            start_vpn + len_in_pages <= VPN_SPACE,
            i <= len_in_pages,
        ensures
            kernel.wf(),
            *kernel == o,
            kernel.current is Some,
            root == kernel.cur_root(),
            memory_set.root() == root,
            all_unmapped ==> forall|v: u64| start_vpn <= v < start_vpn + len_in_pages ==> (#[trigger] kernel.mem.spec_translate(root, v)) is None,
        decreases len_in_pages - i,
    {
        let vpn = start_vpn + i;
        if memory_set.translate(&kernel.mem, vpn).is_some() {
            all_unmapped = false;
            break;
        }
        i = i + 1;
    }
    if all_unmapped {
        proof {
            assert forall|v: u64| start_vpn <= v < start_vpn + len_in_pages implies #[trigger] kernel.mem.entry(root, v) is None by {
                assert(kernel.mem.spec_translate(root, v) is None);
                lemma_translate_valid(kernel.mem, root, v);
            }
            assert forall|p: u64| #[trigger] kernel.mem.frames.is_allocated(p) <==> (o.mem.frames.is_allocated(p)
                && !range_owns(o.mem, root, start_vpn as int, start_vpn + len_in_pages, p)) by {
                if range_owns(o.mem, root, start_vpn as int, start_vpn + len_in_pages, p) {
                    let w = choose|w: u64| start_vpn <= w < start_vpn + len_in_pages
                        && ((#[trigger] o.mem.entry(root, w)) matches Some(x) && x.ppn == p);
                }
            }
        }
        return 0;
    }
    proof { kernel.lemma_cur_root_bound(); }
    let root_ppn = memory_set.page_table.root_ppn;
    let mut i: u64 = 0;
    while i < len_in_pages
        invariant
            i <= len_in_pages,
            start_vpn + len_in_pages == munmap_end(start, len),
            start_vpn == first_page(start),
            start_vpn + len_in_pages <= VPN_SPACE,
            o.wf(),
            o.current is Some,
            root == o.cur_root(),
            memory_set.root() == root,
            root_ppn == root,
            *kernel == (Kernel { mem: kernel.mem, ..o }),
            kernel.mem.wf(),
            kernel.mem.roots@ == o.mem.roots@,
            kernel.mem.leaf_tables@ == o.mem.leaf_tables@,
            forall|v: u64| start_vpn <= v < start_vpn + i ==> #[trigger] kernel.mem.entry(root, v) is None,
            forall|rt: u64, v: u64| !(rt == root && start_vpn <= v < start_vpn + i) ==> #[trigger] kernel.mem.entry(rt, v)
                == o.mem.entry(rt, v),
            forall|p: u64| #[trigger] kernel.mem.frames.is_allocated(p) <==> (o.mem.frames.is_allocated(p)
                && !range_owns(o.mem, root, start_vpn as int, start_vpn + i, p)),
        decreases len_in_pages - i,
    {
        let vpn = start_vpn + i;
        let found = memory_set.translate(&kernel.mem, vpn);
        proof {
            lemma_translate_valid(kernel.mem, root, vpn);
            assert(kernel.mem.entry(root, vpn) == o.mem.entry(root, vpn));
        }
        let mapped = match found {
            Some(pte) => pte.is_valid(),
            None => false,
        };
        if mapped {
            kernel.mem.unmap_framed(root_ppn, vpn);
            proof {
                let q = o.mem.entry(root, vpn).unwrap().ppn;
                assert forall|p: u64| #[trigger] kernel.mem.frames.is_allocated(p) <==> (o.mem.frames.is_allocated(p)
                    && !range_owns(o.mem, root, start_vpn as int, start_vpn + i + 1, p)) by {
                    if p == q {
                        assert(o.mem.entry(root, vpn) matches Some(x) && x.ppn == p);
                        assert(range_owns(o.mem, root, start_vpn as int, start_vpn + i + 1, p));
                    } else {
                        if range_owns(o.mem, root, start_vpn as int, start_vpn + i + 1, p) {
                            let w = choose|w: u64| start_vpn <= w < start_vpn + i + 1
                                && ((#[trigger] o.mem.entry(root, w)) matches Some(x) && x.ppn == p);
                            assert(w != vpn);
                            assert(range_owns(o.mem, root, start_vpn as int, start_vpn + i, p));
                        }
                        if range_owns(o.mem, root, start_vpn as int, start_vpn + i, p) {
                            let w = choose|w: u64| start_vpn <= w < start_vpn + i
                                && ((#[trigger] o.mem.entry(root, w)) matches Some(x) && x.ppn == p);
                            assert(start_vpn <= w < start_vpn + i + 1);
                        }
                    }
                }
            }
        } else {
            proof {
                assert(o.mem.entry(root, vpn) is None);
                assert forall|p: u64| #[trigger] kernel.mem.frames.is_allocated(p) <==> (o.mem.frames.is_allocated(p)
                    && !range_owns(o.mem, root, start_vpn as int, start_vpn + i + 1, p)) by {
                    if range_owns(o.mem, root, start_vpn as int, start_vpn + i + 1, p) {
                        let w = choose|w: u64| start_vpn <= w < start_vpn + i + 1
                            && ((#[trigger] o.mem.entry(root, w)) matches Some(x) && x.ppn == p);
                        assert(w != vpn);
                        assert(range_owns(o.mem, root, start_vpn as int, start_vpn + i, p));
                    }
                    if range_owns(o.mem, root, start_vpn as int, start_vpn + i, p) {
                        let w = choose|w: u64| start_vpn <= w < start_vpn + i
                            && ((#[trigger] o.mem.entry(root, w)) matches Some(x) && x.ppn == p);
                        assert(start_vpn <= w < start_vpn + i + 1);
                    }
                }
            }
        }
        i = i + 1;
    }
    proof {
        if o.pages_in_areas() {
            assert forall|v: u64| #[trigger] kernel.mem.entry(root, v) is Some
                implies kernel.tasks@[o.cur_index()].memory_set.covers(v) by {
                assert(o.mem.entry(root, v) is Some);
                assert(o.tasks@[o.cur_index()].memory_set.covers(v));
            }
        }
        lemma_wf_after_current_space_change(o, *kernel);
        if children_unique(o) {
            lemma_children_same(o, *kernel);
        }
    }
    0
}

/// A second by-token `mmap` of a range that one has just mapped is refused,
/// whatever its protection, and changes nothing.
pub proof fn law_token_mmap_twice(
    k0: Kernel,
    k1: Kernel,
    k2: Kernel,
    start: u64,
    len: u64,
    p1: u64,
    p2: u64,
    r2: isize,
)
    requires
        k0.wf(),
        k0.current is Some,
        len > 0,
        remap_mmap_spec(k0, k1, start, len, p1, 0),
        remap_mmap_spec(k1, k2, start, len, p2, r2),
    ensures
        r2 == -1,
        k2 == k1,
{
    let s = first_page(start);
    assert(pages_of(len) >= 1);
    assert(k1.cur_root() == k0.cur_root());
    assert(k1.mem.entry(k0.cur_root(), s) is Some);
    assert(k1.mem.spec_translate(k1.cur_root(), s) is Some);
    assert(range_translates(k1.mem, k1.cur_root(), s as int, s + pages_of(len)));
}

/// A second by-token `munmap` of a range that one has just unmapped returns
/// 0 and leaves every page-table entry and every frame as the first left
/// them.
pub proof fn law_token_munmap_twice(k0: Kernel, k1: Kernel, k2: Kernel, start: u64, len: u64, r2: isize)
    requires
        k0.wf(),
        k0.current is Some,
        remap_munmap_spec(k0, k1, start, len, 0),
        remap_munmap_spec(k1, k2, start, len, r2),
    ensures
        r2 == 0,
        k2 == (Kernel { mem: k2.mem, ..k1 }),
        forall|rt: u64, v: u64| #[trigger] k2.mem.entry(rt, v) == k1.mem.entry(rt, v),
        forall|p: u64| #[trigger] k2.mem.frames.is_allocated(p) <==> k1.mem.frames.is_allocated(p),
        k2.mem.roots@ == k1.mem.roots@,
        k2.mem.leaf_tables@ == k1.mem.leaf_tables@,
{
    let s = first_page(start);
    let n = munmap_end(start, len) - s;
    assert(k1.cur_root() == k0.cur_root());
    let root = k1.cur_root();
    assert forall|p: u64| #[trigger] k2.mem.frames.is_allocated(p) <==> k1.mem.frames.is_allocated(p) by {
        if range_owns(k1.mem, root, s as int, s + n, p) {
            let w = choose|w: u64| s <= w < s + n && ((#[trigger] k1.mem.entry(root, w)) matches Some(x) && x.ppn == p);
        }
    }
    assert forall|rt: u64, v: u64| #[trigger] k2.mem.entry(rt, v) == k1.mem.entry(rt, v) by {
        if rt == root && s <= v < s + n {
            assert(k1.mem.entry(root, v) is None);
        }
    }
}

/// This `munmap` clears exactly the pages that cover `[start, start + len)`:
/// from the page of `start` up to the page count `ceil(len / PAGE_SIZE)`,
/// cut at the last page of the address space. Every other page of every
/// table keeps its entry.
pub proof fn law_token_munmap_range(old: Kernel, new: Kernel, start: u64, len: u64, r: isize)
    requires
        remap_munmap_spec(old, new, start, len, r),
        start % PAGE_SIZE == 0,
    ensures
        r == 0,
        ({
            let s = (start % 0x80_0000_0000) / 4096;
            let n = (len as int + 4095) / 4096;
            let e = if s + n > 0x800_0000 { 0x800_0000 } else { s + n };
            &&& forall|v: u64| s <= v < e ==> (#[trigger] new.mem.entry(old.cur_root(), v)) is None
            &&& forall|rt: u64, v: u64| !(rt == old.cur_root() && s <= v < e)
                ==> #[trigger] new.mem.entry(rt, v) == old.mem.entry(rt, v)
        }),
{
}

/// A successful by-token `mmap` maps exactly the pages that cover
/// `[start, start + len)`, from the page of `start` on, `ceil(len /
/// PAGE_SIZE)` of them, each as an area of one page added after the task's
/// own; no other entry of any table changes.
pub proof fn law_token_mmap_range(old: Kernel, new: Kernel, start: u64, len: u64, prot: u64, r: isize)
    requires
        remap_mmap_spec(old, new, start, len, prot, r),
        r == 0,
    ensures
        ({
            let s = (start % 0x80_0000_0000) / 4096;
            let n = (len as int + 4095) / 4096;
            &&& forall|v: u64| s <= v < s + n ==> (#[trigger] new.mem.entry(old.cur_root(), v)) is Some
            &&& forall|rt: u64, v: u64| !(rt == old.cur_root() && s <= v < s + n)
                ==> #[trigger] new.mem.entry(rt, v) == old.mem.entry(rt, v)
            &&& new.cur_task().memory_set.areas@.len() == old.cur_task().memory_set.areas@.len() + n
            &&& new.mem.free_frames() + n == old.mem.free_frames()
        }),
{
}

} // verus!
