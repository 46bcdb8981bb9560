use vstd::prelude::*;
use crate::config::{PAGE_SIZE, MAXVA, VPN_SPACE, INIT_PID};
use crate::address::{virt_addr, floor, ceil, page_start, spec_virt_addr, spec_floor, spec_ceil};
use crate::page_table::{entry_flags, PTE_V, PTE_R, PTE_W, PTE_X, PTE_U};
use crate::memory_set::{MapArea, MAP_PERM_U, cut_area, cut_areas, page_copies};
use crate::process_tree::{children_unique, lemma_children_one_changed, lemma_children_reap, lemma_children_new_child, lemma_children_exit};
use crate::task::{Kernel, TaskControlBlock, TaskStatus, same_but_areas, same_task, range_all_mapped, range_any_mapped, range_owns, lemma_translate_valid, reap_spec, brk_spec, brk_target, brk_change_safe, sbrk_granted, fork_effect, spawn_effect, exec_effect, exit_effect};
use crate::loader::{AppImage, app_areas, find_app, app_fits, app_frames};
use crate::user_access::{translated_byte_buffer, range_walkable, user_pa, chunk_addrs, total_len, lemma_chunk_addrs_len, lemma_chunk_addrs_step, lemma_chunk_addrs_prefix};
use crate::memory_set::{areas_disjoint, total_pages, areas_cover};

verus! {

/// A time: whole seconds and the microseconds past them.
#[derive(Clone, Copy, Debug)]
pub struct TimeVal {
    pub sec: u64,
    pub usec: u64,
}

/// The eight bytes of `x`, least significant first.
pub open spec fn le_bytes(x: u64) -> Seq<u8> {
    Seq::new(8, |i: int| ((x >> (8 * i) as u64) & 0xff) as u8)
}

/// The sixteen bytes of a `TimeVal` as it lies in memory: `sec`, then
/// `usec`, each least significant byte first.
pub open spec fn time_val_bytes(t: TimeVal) -> Seq<u8> {
    le_bytes(t.sec) + le_bytes(t.usec)
}

/// Appends the eight bytes of `x`, least significant first.
fn push_le_bytes(out: &mut Vec<u8>, x: u64)
    ensures
        final(out)@ == old(out)@ + le_bytes(x),
{
    let mut i: u64 = 0;
    while i < 8
        invariant
            i <= 8,
            out@ == old(out)@ + le_bytes(x).subrange(0, i as int),
        decreases 8 - i,
    {
        out.push(((x >> (8 * i)) & 0xff) as u8);
        proof {
            assert(le_bytes(x).subrange(0, i as int + 1) =~= le_bytes(x).subrange(0, i as int).push(
                ((x >> (8 * i) as u64) & 0xff) as u8));
        }
        i = i + 1;
    }
    assert(le_bytes(x).subrange(0, 8) =~= le_bytes(x));
}

impl TimeVal {
    /// The time `us` microseconds after the epoch.
    pub fn from_us(us: u64) -> (r: TimeVal)
        ensures
            r.sec == us / 1_000_000,
            r.usec == us % 1_000_000,
            r.sec * 1_000_000 + r.usec == us,
            r.usec < 1_000_000,
    {
        TimeVal { sec: us / 1_000_000, usec: us % 1_000_000 }
    }

    /// The bytes of this time as it lies in memory.
    pub fn to_bytes(&self) -> (r: Vec<u8>)
        ensures
            r@ == time_val_bytes(*self),
    {
        let mut out: Vec<u8> = Vec::new();
        push_le_bytes(&mut out, self.sec);
        push_le_bytes(&mut out, self.usec);
        proof { assert(out@ =~= time_val_bytes(*self)); }
        out
    }
}

/// Byte stores that `sys_get_time` asks for: each byte of the time `now_us`
/// as a `TimeVal` at the physical address that the matching byte of `ts`
/// reaches in the table `root`.
pub open spec fn time_stores(mem: crate::page_table::PhysMemory, root: u64, ts: u64, now_us: u64) -> Seq<(u64, u8)> {
    let bytes = time_val_bytes(TimeVal { sec: now_us / 1_000_000, usec: now_us % 1_000_000 });
    Seq::new(16, |k: int| (user_pa(mem, root, (ts + k) as u64), bytes[k]))
}

/// Reports the time to the running task at its address `ts`, which may
/// straddle two pages: seconds and microseconds both come from the one
/// clock reading `now_us`. Returns 0 and the byte stores into
/// physical memory that the caller is to make, or -1 and none when `ts` is
/// null.
pub fn sys_get_time(kernel: &Kernel, ts: u64, _tz: u64, now_us: u64) -> (r: (isize, Vec<(u64, u8)>))
    requires
        kernel.wf(),
        kernel.current is Some,
        ts != 0 ==> ts + 16 < 0x80_0000_0000 && range_walkable(kernel.mem, kernel.cur_root(), ts, 16),
    ensures
        ts == 0 ==> r.0 == -1 && r.1@ == Seq::<(u64, u8)>::empty(),
        ts != 0 ==> r.0 == 0 && r.1@ == time_stores(kernel.mem, kernel.cur_root(), ts, now_us),
{
    if ts == 0 {
        return (-1, Vec::new());
    }
    let token = kernel.current_user_token();
    let time_val = TimeVal::from_us(now_us);
    let src = time_val.to_bytes();
    let dst = translated_byte_buffer(&kernel.mem, token, ts, 16);
    let ghost root = kernel.cur_root();
    let ghost addrs = chunk_addrs(dst@);
    proof {
        lemma_chunk_addrs_len(dst@);
    }
    let mut total_len_sum: u64 = 0;
    let mut i: usize = 0;
    while i < dst.len()
        invariant
            i <= dst@.len(),
            total_len(dst@) == 16,
            total_len_sum == total_len(dst@.subrange(0, i as int)),
        decreases dst@.len() - i,
    {
        proof {
            lemma_chunk_addrs_step(dst@, i as int);
            lemma_chunk_addrs_prefix(dst@, i as int + 1);
        }
        total_len_sum = total_len_sum + dst[i].1;
        i = i + 1;
    }
    proof { assert(dst@.subrange(0, dst@.len() as int) =~= dst@); }
    if total_len_sum < 16 {
        return (-1, Vec::new());
    }
    let mut stores: Vec<(u64, u8)> = Vec::new();
    let mut copied: u64 = 0;
    let mut j: usize = 0;
    while j < dst.len()
        invariant
            j <= dst@.len(),
            src@.len() == 16,
            src@ == time_val_bytes(TimeVal { sec: now_us / 1_000_000, usec: now_us % 1_000_000 }),
            forall|w: int| 0 <= w < dst@.len() ==> (#[trigger] dst@[w]).0 + dst@[w].1 < 0x200_0000_0000_0000,
            ts != 0,
            root == kernel.cur_root(),
            addrs == chunk_addrs(dst@),
            addrs == crate::user_access::user_addrs(kernel.mem, root, ts, 16),
            addrs.len() == 16,
            copied == chunk_addrs(dst@.subrange(0, j as int)).len(),
            copied <= 16,
            stores@ == Seq::new(copied as nat, |k: int| (addrs[k], src@[k])),
        decreases dst@.len() - j,
    {
        let (pa, n) = dst[j];
        proof {
            lemma_chunk_addrs_step(dst@, j as int);
            lemma_chunk_addrs_prefix(dst@, j as int + 1);
            lemma_chunk_addrs_len(dst@.subrange(0, j as int + 1));
            lemma_chunk_addrs_len(dst@.subrange(0, j as int));
        }
        let len = if n < 16 - copied { n } else { 16 - copied };
        let mut q: u64 = 0;
        while q < len
            invariant
                q <= len,
                len <= n,
                pa + n < 0x200_0000_0000_0000,
                copied + n <= 16,
                src@.len() == 16,
                addrs.len() == 16,
                chunk_addrs(dst@.subrange(0, j as int + 1)) == chunk_addrs(dst@.subrange(0, j as int))
                    + Seq::new(n as nat, |w: int| (pa + w) as u64),
                copied == chunk_addrs(dst@.subrange(0, j as int)).len(),
                forall|k: int| 0 <= k < chunk_addrs(dst@.subrange(0, j as int + 1)).len() ==>
                    #[trigger] chunk_addrs(dst@.subrange(0, j as int + 1))[k] == addrs[k],
                stores@ == Seq::new((copied + q) as nat, |k: int| (addrs[k], src@[k])),
            decreases len - q,
        {
            proof {
                let k = copied + q;
                assert(chunk_addrs(dst@.subrange(0, j as int + 1))[k as int] == (pa + q) as u64);
            }
            stores.push((pa + q, src[(copied + q) as usize]));
            proof {
                assert(stores@ =~= Seq::new((copied + q + 1) as nat, |k: int| (addrs[k], src@[k])));
            }
            q = q + 1;
        }
        copied = copied + len;
        proof {
            assert(len == n);
        }
        if copied >= 16 {
            proof {
                assert(stores@ =~= time_stores(kernel.mem, root, ts, now_us));
            }
            return (0, stores);
        }
        j = j + 1;
    }
    proof {
        assert(dst@.subrange(0, dst@.len() as int) =~= dst@);
        assert(copied == 16);
    }
    (0, stores)
}

/// The start address is page aligned, the protection has only its three low
/// bits and at least one of them, and the start lies below `MAXVA`.
pub open spec fn mmap_request_ok(start: u64, port: u64) -> bool {
    &&& start % PAGE_SIZE == 0
    &&& 1 <= port <= 7
    &&& start < MAXVA
}

/// First page past the range that `mmap` is asked for.
pub open spec fn mmap_end_vpn(start: u64, len: u64) -> int {
    spec_ceil(spec_virt_addr((start + len) as u64))
}

/// Area permissions that `mmap` gives for the protection `port`: bit 0 of
/// `port` becomes readable, bit 1 writable, bit 2 executable, and the area is
/// always user-accessible.
pub open spec fn mmap_perm(port: u64) -> u8 {
    (port * 2 + MAP_PERM_U) as u8
}

/// What `sys_mmap(start, len, port)` does to the kernel `old`, giving `new`
/// and the return value `r`: -1 with nothing changed when the request is
/// malformed or a page of the range is already mapped; otherwise 0, the
/// running task gains one area over the range and each page of the range is
/// mapped to a fresh frame with the requested permissions.
pub open spec fn mmap_spec(old: Kernel, new: Kernel, start: u64, len: u64, port: u64, r: isize) -> bool {
    let s = start / PAGE_SIZE;
    let e = mmap_end_vpn(start, len);
    if !mmap_request_ok(start, port) || range_any_mapped(old.mem, old.cur_root(), s as int, e) {
        r == -1 && new == old
    } else {
        &&& r == 0
        &&& new.current == old.current
        &&& new.next_pid == old.next_pid
        &&& new.ready_queue@ == old.ready_queue@
        &&& new.tasks@.len() == old.tasks@.len()
        &&& new.cur_index() == old.cur_index()
        &&& new.cur_root() == old.cur_root()
        &&& forall|j: int| 0 <= j < old.tasks@.len() && j != old.cur_index() ==>
            #[trigger] new.tasks@[j] == old.tasks@[j]
        &&& same_but_areas(new.cur_task(), old.cur_task())
        &&& new.cur_task().memory_set.areas@ == old.cur_task().memory_set.areas@.push(
            MapArea { start_vpn: s, end_vpn: e as u64, map_perm: mmap_perm(port) })
        &&& forall|v: u64| s <= v < e ==> (#[trigger] new.mem.entry(old.cur_root(), v) matches Some(x)
            && x.flags == entry_flags(mmap_perm(port)))
        &&& forall|rt: u64, v: u64| !(rt == old.cur_root() && s <= v < e) ==>
            #[trigger] new.mem.entry(rt, v) == old.mem.entry(rt, v)
        &&& new.mem.roots@ == old.mem.roots@
        &&& new.mem.free_frames() + (e - s) == old.mem.free_frames()
    }
}

/// The protection check of `mmap`, written with bit operations, accepts
/// exactly the values 1 to 7.
pub proof fn lemma_port_bits(port: u64)
    ensures
        ((port & !0x7u64) != 0 || (port & 0x7u64) == 0) <==> !(1 <= port <= 7),
        1 <= port <= 7 ==> ((((port << 1u64) as u8) & 0x1eu8) | 16u8) == mmap_perm(port),
{
    assert(((port & !0x7u64) != 0 || (port & 0x7u64) == 0) <==> !(1 <= port <= 7)) by (bit_vector);
    assert(1 <= port <= 7 ==> ((((port << 1u64) as u8) & 0x1eu8) | 16u8) == (port * 2 + 16) as u8) by (bit_vector);
}

/// Maps `[start, start + len)` into the running task's address space with
/// the protection `port` (bit 0 read, bit 1 write, bit 2 execute), backing
/// each page with a fresh frame.
///
/// Returns 0 on success, and -1 when `start` is not page aligned, when `port`
/// has bits other than its three low ones or none of them, when `start` is
/// not below `MAXVA`, or when a page of the range is already mapped.
pub fn sys_mmap(kernel: &mut Kernel, start: u64, len: u64, port: u64) -> (r: isize)
    requires
        old(kernel).wf(),
        old(kernel).current is Some,
        mmap_request_ok(start, port) ==> start + len <= u64::MAX && start / PAGE_SIZE <= mmap_end_vpn(start, len),
        mmap_request_ok(start, port) && !range_any_mapped(old(kernel).mem, old(kernel).cur_root(),
            (start / PAGE_SIZE) as int, mmap_end_vpn(start, len)) ==> old(kernel).mem.free_frames()
            >= mmap_end_vpn(start, len) - start / PAGE_SIZE,
    ensures
        children_unique(*old(kernel)) ==> children_unique(*final(kernel)),
        old(kernel).pages_in_areas() ==> final(kernel).pages_in_areas(),
        final(kernel).wf(),
        mmap_spec(*old(kernel), *final(kernel), start, len, port, r),
{
    proof { lemma_port_bits(port); }
    if start % PAGE_SIZE != 0 || port & !0x7 != 0 || port & 0x7 == 0 || start >= MAXVA {
        return -1;
    }
    let start_vpn = floor(virt_addr(start));
    let end_vpn = ceil(virt_addr(start + len));
    proof {
        assert(spec_virt_addr(start) == start);
        crate::address::lemma_virt_addr_pages((start + len) as u64);
    }
    let ghost root = kernel.cur_root();
    let mut vpn = start_vpn;
    while vpn < end_vpn
        invariant
            kernel.wf(),
            *kernel == *old(kernel),
            kernel.current is Some,
            root == kernel.cur_root(),
            start_vpn == start / PAGE_SIZE,
            end_vpn == mmap_end_vpn(start, len),
            start_vpn <= vpn,
            forall|v: u64| start_vpn <= v < vpn ==> !(#[trigger] kernel.mem.is_mapped(root, v)),
        decreases end_vpn - vpn,
    {
        proof { lemma_translate_valid(kernel.mem, root, vpn); }
        if let Some(pte) = kernel.current_translate(vpn) {
            if pte.is_valid() {
                assert(kernel.mem.is_mapped(root, vpn));
                return -1;
            }
        }
        vpn = vpn + 1;
    }
    let perm: u8 = ((#[verifier::truncate] ((port << 1) as u8)) & 0x1e) | MAP_PERM_U;
    let ghost o = *kernel;
    kernel.create_new_map_area(page_start(start_vpn), page_start(end_vpn), perm);
    proof {
        if children_unique(o) {
            lemma_children_one_changed(o, *kernel, o.cur_index());
        }
    }
    0
}

/// Length that `munmap` works on: `len`, cut so that the range ends at
/// `MAXVA` at the latest.
pub open spec fn munmap_len(start: u64, len: u64) -> u64 {
    if len > MAXVA - start {
        (MAXVA - start) as u64
    } else {
        len
    }
}

/// What `sys_munmap(start, len)` does to the kernel `old`, giving `new` and
/// the return value `r`: -1 with nothing changed when `start` is not below
/// `MAXVA`, is not page aligned, or a page of the (cut) range is not mapped;
/// otherwise 0, and every page of the range is unmapped and its frame given
/// back, with nothing else changed.
pub open spec fn munmap_spec(old: Kernel, new: Kernel, start: u64, len: u64, r: isize) -> bool {
    let s = (start / PAGE_SIZE) as int;
    let e = spec_ceil((start + munmap_len(start, len)) as u64);
    if start >= MAXVA || start % PAGE_SIZE != 0 || !range_all_mapped(old.mem, old.cur_root(), s, e) {
        r == -1 && new == old
    } else {
        &&& r == 0
        &&& new.current == old.current
        &&& new.next_pid == old.next_pid
        &&& new.ready_queue@ == old.ready_queue@
        &&& new.tasks@.len() == old.tasks@.len()
        &&& forall|j: int| 0 <= j < old.tasks@.len() && j != old.cur_index() ==> #[trigger] new.tasks@[j] == old.tasks@[j]
        &&& new.cur_index() == old.cur_index()
        &&& same_but_areas(new.cur_task(), old.cur_task())
        &&& new.cur_task().memory_set.areas@ == cut_areas(old.cur_task().memory_set.areas@, s as u64, e as u64)
        &&& new.cur_root() == old.cur_root()
        &&& forall|v: u64| s <= v < e ==> #[trigger] new.mem.entry(old.cur_root(), v) is None
        &&& forall|rt: u64, v: u64| !(rt == old.cur_root() && s <= v < e) ==>
            #[trigger] new.mem.entry(rt, v) == old.mem.entry(rt, v)
        &&& new.mem.roots@ == old.mem.roots@
        &&& new.mem.free_frames() == old.mem.free_frames() + (e - s)
        &&& forall|p: u64| #[trigger] new.mem.frames.is_allocated(p) <==> (old.mem.frames.is_allocated(p)
            && !range_owns(old.mem, old.cur_root(), s, e, p))
    }
}

/// Unmaps `[start, start + len)` from the running task's address space,
/// cutting the range at `MAXVA`, and gives the frames back.
///
/// Returns 0 on success, and -1 when `start` is not below `MAXVA`, is not
/// page aligned, or a page of the range is not mapped.
pub fn sys_munmap(kernel: &mut Kernel, start: u64, len: u64) -> (r: isize)
    requires
        old(kernel).wf(),
        old(kernel).current is Some,
    ensures
        children_unique(*old(kernel)) ==> children_unique(*final(kernel)),
        old(kernel).pages_in_areas() ==> final(kernel).pages_in_areas(),
        final(kernel).wf(),
        munmap_spec(*old(kernel), *final(kernel), start, len, r),
        areas_disjoint(old(kernel).cur_task().memory_set.areas@) ==> areas_disjoint(final(kernel).cur_task().memory_set.areas@),
{
    if start >= MAXVA || start % PAGE_SIZE != 0 {
        return -1;
    }
    let mut mlen = len;
    if len > MAXVA - start {
        mlen = MAXVA - start;
    }
    let ghost o = *kernel;
    let r = kernel.unmap_consecutive_area(start, mlen);
    proof {
        if r == 0 && children_unique(o) {
            lemma_children_one_changed(o, *kernel, o.cur_index());
        }
        if r == 0 {
            let t = o.cur_task();
            assert(t.memory_set.wf(&o.mem));
            crate::memory_set::lemma_cut_areas(t.memory_set.areas@, spec_floor(start), spec_ceil((start + mlen) as u64) as u64);
        }
    }
    r
}


/// Unmapping the range that a successful `mmap` has just mapped succeeds,
/// leaves every page table and the number of free frames as they were before
/// the `mmap`, and leaves the running task the areas it had before, with the
/// range cut out of them.
pub proof fn law_munmap_undoes_mmap(
    k0: Kernel,
    k1: Kernel,
    k2: Kernel,
    start: u64,
    len: u64,
    port: u64,
    r1: isize,
    r2: isize,
)
    requires
        k0.wf(),
        k0.current is Some,
        mmap_spec(k0, k1, start, len, port, r1),
        r1 == 0,
        munmap_spec(k1, k2, start, len, r2),
        start + len <= MAXVA,
    ensures
        r2 == 0,
        forall|rt: u64, v: u64| #[trigger] k2.mem.entry(rt, v) == k0.mem.entry(rt, v),
        k2.mem.roots@ == k0.mem.roots@,
        k2.mem.free_frames() == k0.mem.free_frames(),
        k2.cur_index() == k0.cur_index(),
        len > 0 ==> k2.cur_task().memory_set.areas@ == cut_areas(k0.cur_task().memory_set.areas@, start / PAGE_SIZE,
            mmap_end_vpn(start, len) as u64),
{
    let s = (start / PAGE_SIZE) as int;
    let e = mmap_end_vpn(start, len);
    let a1 = k1.cur_task().memory_set.areas@;
    assert(a1.drop_last() =~= k0.cur_task().memory_set.areas@);
    if len > 0 {
        assert(s < e);
        assert(cut_area(a1.last(), s as u64, e as u64) =~= Seq::<MapArea>::empty());
        assert(cut_areas(a1, s as u64, e as u64) =~= cut_areas(k0.cur_task().memory_set.areas@, s as u64, e as u64));
    }
    assert(spec_virt_addr((start + len) as u64) == start + len);
    assert(munmap_len(start, len) == len);
    assert(spec_ceil((start + munmap_len(start, len)) as u64) == e);
    assert(!range_any_mapped(k0.mem, k0.cur_root(), s, e));
    assert(range_all_mapped(k1.mem, k1.cur_root(), s, e)) by {
        assert forall|v: u64| s <= v < e implies #[trigger] k1.mem.is_mapped(k1.cur_root(), v) by {
            assert(k1.mem.entry(k0.cur_root(), v) is Some);
        }
    }
    assert forall|rt: u64, v: u64| #[trigger] k2.mem.entry(rt, v) == k0.mem.entry(rt, v) by {
        if rt == k0.cur_root() && s <= v < e {
            assert(k2.mem.entry(k1.cur_root(), v) is None);
            assert(!k0.mem.is_mapped(k0.cur_root(), v));
        } else {
            assert(k2.mem.entry(rt, v) == k1.mem.entry(rt, v));
        }
    }
}


/// The child pid `c` is what `waitpid(pid, ..)` asks for: any child when
/// `pid` is -1, else the child whose pid is `pid`.
pub open spec fn child_matches(pid: isize, c: usize) -> bool {
    pid == -1 || pid as usize == c
}

/// `c` is asked for by `waitpid(pid, ..)` and has exited.
pub open spec fn waitable(k: Kernel, pid: isize, c: usize) -> bool {
    child_matches(pid, c) && k.has_pid(c) && k.task(c).status == TaskStatus::Zombie
}

/// What `sys_waitpid(pid, exit_code_ptr)` does to the kernel `old`, giving
/// `new` and the result `r`: the return value, and the store of the child's
/// exit code that the caller is to make at a physical address.
///
/// -1 when no child of the running task is asked for; -2 when some are but
/// none has exited; otherwise the first exited child asked for (in the order
/// of the children) is reaped, its pid is returned, and its exit code is to
/// be stored where `exit_code_ptr` translates in the running task's table.
pub open spec fn waitpid_spec(
    old: Kernel,
    new: Kernel,
    pid: isize,
    exit_code_ptr: u64,
    r: (isize, Option<(u64, i32)>),
) -> bool {
    let ch = old.cur_task().children@;
    if !(exists|i: int| 0 <= i < ch.len() && child_matches(pid, #[trigger] ch[i])) {
        r == (-1isize, None::<(u64, i32)>) && new == old
    } else if !(exists|i: int| 0 <= i < ch.len() && waitable(old, pid, #[trigger] ch[i])) {
        r == (-2isize, None::<(u64, i32)>) && new == old
    } else {
        exists|idx: int|
            0 <= idx < ch.len() && waitable(old, pid, #[trigger] ch[idx]) && (forall|j: int|
                0 <= j < idx ==> !waitable(old, pid, #[trigger] ch[j])) && r.0 == ch[idx] as isize
                && r.1 == Some((old.mem.spec_translate_va(old.cur_root(), exit_code_ptr).unwrap(),
                old.task(ch[idx]).exit_code)) && reap_spec(old, new, ch[idx], idx)
    }
}

/// Position of the first of `children` that `pid` asks for.
fn first_match(children: &Vec<usize>, pid: isize) -> (r: Option<usize>)
    ensures
        match r {
            Some(i) => i < children@.len() && child_matches(pid, children@[i as int]),
            None => !(exists|i: int| 0 <= i < children@.len() && child_matches(pid, #[trigger] children@[i])),
        },
{
    let mut i: usize = 0;
    while i < children.len()
        invariant
            i <= children@.len(),
            forall|k: int| 0 <= k < i ==> !child_matches(pid, #[trigger] children@[k]),
        decreases children@.len() - i,
    {
        if pid == -1 || #[verifier::truncate] (pid as usize) == children[i] {
            return Some(i);
        }
        i = i + 1;
    }
    None
}

/// Position, among the running task's children, of the first one that
/// `pid` asks for and that has exited, with the position of its task.
fn first_waitable(kernel: &Kernel, pid: isize) -> (r: Option<(usize, usize)>)
    requires
        kernel.wf(),
        kernel.current is Some,
    ensures
        match r {
            Some((idx, ti)) => {
                let ch = kernel.cur_task().children@;
                &&& idx < ch.len()
                &&& ti < kernel.tasks@.len()
                &&& kernel.tasks@[ti as int].pid == ch[idx as int]
                &&& kernel.index_of_pid(ch[idx as int]) == ti
                &&& waitable(*kernel, pid, ch[idx as int])
                &&& forall|j: int| 0 <= j < idx ==> !waitable(*kernel, pid, #[trigger] ch[j])
            },
            None => !(exists|i: int| 0 <= i < kernel.cur_task().children@.len()
                && waitable(*kernel, pid, #[trigger] kernel.cur_task().children@[i])),
        },
{
    let ci = kernel.current_index();
    let mut idx: usize = 0;
    while idx < kernel.tasks[ci].children.len()
        invariant
            kernel.wf(),
            kernel.current is Some,
            ci == kernel.cur_index(),
            idx <= kernel.cur_task().children@.len(),
            forall|j: int| 0 <= j < idx ==> !waitable(*kernel, pid, #[trigger] kernel.cur_task().children@[j]),
        decreases kernel.cur_task().children@.len() - idx,
    {
        let c = kernel.tasks[ci].children[idx];
        if pid == -1 || #[verifier::truncate] (pid as usize) == c {
            match kernel.find_task(c) {
                Some(ti) => {
                    if kernel.tasks[ti].status == TaskStatus::Zombie {
                        return Some((idx, ti));
                    }
                },
                None => {},
            }
        }
        idx = idx + 1;
    }
    None
}

/// Waits for an exited child of the running task: `pid` -1 asks for any
/// child, any other value for the child with that pid.
///
/// Returns -1 when no child is asked for and -2 when none of those asked for
/// has exited. Otherwise reaps the first exited child asked for, returns its
/// pid, and hands back the physical address where `exit_code_ptr` points in
/// the running task's address space together with the child's exit code,
/// for the caller to store there.
pub fn sys_waitpid(kernel: &mut Kernel, pid: isize, exit_code_ptr: u64) -> (r: (isize, Option<(u64, i32)>))
    requires
        old(kernel).wf(),
        old(kernel).current is Some,
        (exists|i: int| 0 <= i < old(kernel).cur_task().children@.len()
            && waitable(*old(kernel), pid, #[trigger] old(kernel).cur_task().children@[i]))
            ==> old(kernel).mem.spec_translate_va(old(kernel).cur_root(), exit_code_ptr) is Some,
    ensures
        children_unique(*old(kernel)) ==> children_unique(*final(kernel)),
        old(kernel).pages_in_areas() ==> final(kernel).pages_in_areas(),
        final(kernel).wf(),
        waitpid_spec(*old(kernel), *final(kernel), pid, exit_code_ptr, r),
{
    let ci = kernel.current_index();
    if first_match(&kernel.tasks[ci].children, pid).is_none() {
        return (-1, None);
    }
    match first_waitable(kernel, pid) {
        Some((idx, ti)) => {
            let found_pid = kernel.tasks[ti].pid;
            let root = kernel.tasks[ci].memory_set.page_table.root_ppn;
            let pa = match kernel.mem.translate_va(root, exit_code_ptr) {
                Some(pa) => pa,
                None => { assert(false); 0 },
            };
            let ghost o = *kernel;
            let exit_code = kernel.reap_child(idx, ti);
            proof {
                assert(waitable(o, pid, o.cur_task().children@[idx as int]));
                if children_unique(o) {
                    lemma_children_reap(o, *kernel, o.tasks@[ti as int].pid, idx as int);
                }
            }
            (#[verifier::truncate] (found_pid as isize), Some((pa, exit_code)))
        },
        None => (-2, None),
    }
}


/// Pid of the running task.
pub fn sys_getpid(kernel: &Kernel) -> (r: isize)
    requires
        kernel.current is Some,
    ensures
        r == kernel.current.unwrap() as isize,
{
    let pid = kernel.current_pid();
    #[verifier::truncate] (pid as isize)
}

/// Gives the processor up: the running task goes back to the ready queue.
/// Returns 0.
pub fn sys_yield(kernel: &mut Kernel) -> (r: isize)
    requires
        old(kernel).wf(),
        old(kernel).current is Some,
    ensures
        children_unique(*old(kernel)) ==> children_unique(*final(kernel)),
        old(kernel).pages_in_areas() ==> final(kernel).pages_in_areas(),
        final(kernel).wf(),
        r == 0,
        final(kernel).mem == old(kernel).mem,
        final(kernel).current is None,
        final(kernel).next_pid == old(kernel).next_pid,
        final(kernel).ready_queue@ == old(kernel).ready_queue@.push(old(kernel).current.unwrap()),
        final(kernel).tasks@ == old(kernel).tasks@.update(old(kernel).cur_index(), final(kernel).tasks@[old(kernel).cur_index()]),
        same_task(final(kernel).tasks@[old(kernel).cur_index()], TaskControlBlock {
            status: TaskStatus::Ready,
            ..old(kernel).cur_task()
        }),
{
    let ghost o = *kernel;
    kernel.suspend_current();
    proof {
        if children_unique(o) {
            lemma_children_one_changed(o, *kernel, o.cur_index());
        }
    }
    0
}

/// Sets the running task's priority to `prio` and returns it; a priority
/// below 2 is refused with -1 and changes nothing.
pub fn sys_set_priority(kernel: &mut Kernel, prio: isize) -> (r: isize)
    requires
        old(kernel).wf(),
        old(kernel).current is Some,
    ensures
        children_unique(*old(kernel)) ==> children_unique(*final(kernel)),
        old(kernel).pages_in_areas() ==> final(kernel).pages_in_areas(),
        final(kernel).wf(),
        prio < 2 ==> r == -1 && *final(kernel) == *old(kernel),
        prio >= 2 ==> {
            &&& r == prio
            &&& final(kernel).mem == old(kernel).mem
            &&& final(kernel).current == old(kernel).current
            &&& final(kernel).next_pid == old(kernel).next_pid
            &&& final(kernel).ready_queue@ == old(kernel).ready_queue@
            &&& final(kernel).tasks@ == old(kernel).tasks@.update(old(kernel).cur_index(), final(kernel).cur_task())
            &&& same_task(final(kernel).cur_task(), TaskControlBlock { priority: prio as u64, ..old(kernel).cur_task() })
        },
{
    if prio < 2 {
        return -1;
    }
    let ghost o = *kernel;
    kernel.set_current_priority(prio as u64);
    proof {
        if children_unique(o) {
            lemma_children_one_changed(o, *kernel, o.cur_index());
        }
    }
    prio
}


/// Moves the running task's program break by `size` bytes. Returns the old
/// break, or -1 (changing nothing) when the new break would lie below the
/// bottom of the heap or the task has no heap area.
pub fn sys_sbrk(kernel: &mut Kernel, size: i32) -> (r: isize)
    requires
        old(kernel).wf(),
        old(kernel).current is Some,
        brk_change_safe(old(kernel).mem, old(kernel).cur_task(), size),
    ensures
        children_unique(*old(kernel)) ==> children_unique(*final(kernel)),
        old(kernel).pages_in_areas() ==> final(kernel).pages_in_areas(),
        final(kernel).wf(),
        brk_spec(*old(kernel), *final(kernel), size, if sbrk_granted(*old(kernel), size) {
            Some(old(kernel).cur_task().program_brk)
        } else {
            None
        }),
        r == if sbrk_granted(*old(kernel), size) {
            old(kernel).cur_task().program_brk as isize
        } else {
            -1isize
        },
{
    let ghost o = *kernel;
    let r = kernel.change_program_brk(size);
    proof {
        if r is Some && children_unique(o) {
            lemma_children_one_changed(o, *kernel, o.cur_index());
        }
    }
    match r {
        Some(old_brk) => #[verifier::truncate] (old_brk as isize),
        None => -1,
    }
}


/// Creates a child of the running task with a copy of its address space,
/// queues it as ready, and returns its pid; in the child the call returns 0.
/// Also returns the frame copies, (parent frame, child frame) for each page
/// of the parent's areas, that the caller is to make so that the child's
/// memory holds what the parent's holds.
pub fn sys_fork(kernel: &mut Kernel) -> (r: (isize, Vec<(u64, u64)>))
    requires
        old(kernel).wf(),
        old(kernel).current is Some,
        old(kernel).next_pid < usize::MAX,
        areas_disjoint(old(kernel).cur_task().memory_set.areas@),
        forall|v: u64| #[trigger] old(kernel).cur_task().memory_set.covers(v) ==> old(kernel).mem.is_mapped(old(kernel).cur_root(), v),
        old(kernel).mem.free_frames() >= 1 + total_pages(old(kernel).cur_task().memory_set.areas@),
    ensures
        children_unique(*old(kernel)) ==> children_unique(*final(kernel)),
        old(kernel).pages_in_areas() ==> final(kernel).pages_in_areas(),
        final(kernel).wf(),
        fork_effect(*old(kernel), *final(kernel), 0, old(kernel).ready_queue@.push(old(kernel).next_pid)),
        r.0 == old(kernel).next_pid as isize,
        r.1@ == page_copies(final(kernel).mem, old(kernel).cur_root(),
            final(kernel).tasks@[old(kernel).tasks@.len() as int].memory_set.root(), old(kernel).cur_task().memory_set.areas@),
{
    let ci = kernel.current_index();
    let ghost o = *kernel;
    let idx = kernel.fork_current();
    let new_pid = kernel.tasks[idx].pid;
    let ghost mid = *kernel;
    proof {
        assert(mid.tasks@[ci as int].memory_set.wf(&mid.mem));
        assert forall|v: u64| #[trigger] mid.tasks@[ci as int].memory_set.covers(v) implies
            mid.mem.is_mapped(mid.tasks@[ci as int].memory_set.root(), v)
            && mid.mem.is_mapped(mid.tasks@[idx as int].memory_set.root(), v) by {
            assert(o.cur_task().memory_set.covers(v));
            assert(mid.mem.entry(o.cur_root(), v) == o.mem.entry(o.cur_root(), v));
        }
    }
    let copies = kernel.tasks[ci].memory_set.page_copy_list(&kernel.tasks[idx].memory_set, &kernel.mem);
    kernel.set_trap_a0(idx, 0);
    kernel.add_task(new_pid);
    proof {
        assert(mid.cur_index() == o.cur_index());
        assert(kernel.tasks@[ci as int] == mid.tasks@[ci as int]);
        assert(fork_effect(o, *kernel, 0, o.ready_queue@.push(o.next_pid)));
        if children_unique(o) {
            lemma_children_new_child(o, *kernel, ci as int);
        }
    }
    (#[verifier::truncate] (new_pid as isize), copies)
}


/// Starts the application named `path` as a new child of the running task
/// and returns the child's pid; -1, changing nothing, when no application
/// has that name.
pub fn sys_spawn(kernel: &mut Kernel, path: &[u8]) -> (r: isize)
    requires
        old(kernel).wf(),
        old(kernel).current is Some,
        forall|i: int| 0 <= i < old(kernel).apps@.len() && (#[trigger] old(kernel).apps@[i]).name@ == path@ ==> {
            &&& old(kernel).next_pid < usize::MAX
            &&& app_fits(&old(kernel).apps@[i])
            &&& old(kernel).mem.free_frames() >= app_frames(&old(kernel).apps@[i])
        },
    ensures
        children_unique(*old(kernel)) ==> children_unique(*final(kernel)),
        old(kernel).pages_in_areas() ==> final(kernel).pages_in_areas(),
        final(kernel).wf(),
        (forall|i: int| 0 <= i < old(kernel).apps@.len() ==> (#[trigger] old(kernel).apps@[i]).name@ != path@)
            ==> r == -1 && *final(kernel) == *old(kernel),
        (exists|i: int| 0 <= i < old(kernel).apps@.len() && (#[trigger] old(kernel).apps@[i]).name@ == path@)
            ==> exists|i: int| 0 <= i < old(kernel).apps@.len() && (#[trigger] old(kernel).apps@[i]).name@ == path@
                && spawn_effect(*old(kernel), *final(kernel), &old(kernel).apps@[i])
                && r == old(kernel).next_pid as isize,
{
    match find_app(&kernel.apps, path) {
        Some(ai) => {
            let ghost o = *kernel;
            let new_pid = kernel.spawn_child(ai);
            proof {
                if children_unique(o) {
                    lemma_children_new_child(o, *kernel, o.cur_index());
                }
            }
            #[verifier::truncate] (new_pid as isize)
        },
        None => -1,
    }
}


/// Replaces the running task's program by the application named `path` and
/// returns 0; -1, changing nothing, when no application has that name.
pub fn sys_exec(kernel: &mut Kernel, path: &[u8]) -> (r: isize)
    requires
        old(kernel).wf(),
        old(kernel).current is Some,
        forall|i: int| 0 <= i < old(kernel).apps@.len() && (#[trigger] old(kernel).apps@[i]).name@ == path@ ==> {
            &&& app_fits(&old(kernel).apps@[i])
            &&& old(kernel).mem.free_frames() >= app_frames(&old(kernel).apps@[i])
        },
    ensures
        children_unique(*old(kernel)) ==> children_unique(*final(kernel)),
        old(kernel).pages_in_areas() ==> final(kernel).pages_in_areas(),
        final(kernel).wf(),
        (forall|i: int| 0 <= i < old(kernel).apps@.len() ==> (#[trigger] old(kernel).apps@[i]).name@ != path@)
            ==> r == -1 && *final(kernel) == *old(kernel),
        (exists|i: int| 0 <= i < old(kernel).apps@.len() && (#[trigger] old(kernel).apps@[i]).name@ == path@)
            ==> r == 0 && exists|i: int| 0 <= i < old(kernel).apps@.len() && (#[trigger] old(kernel).apps@[i]).name@ == path@
                && exec_effect(*old(kernel), *final(kernel), &old(kernel).apps@[i]),
{
    match find_app(&kernel.apps, path) {
        Some(ai) => {
            let ghost o = *kernel;
            kernel.exec_current(ai);
            proof {
                if children_unique(o) {
                    lemma_children_one_changed(o, *kernel, o.cur_index());
                }
            }
            0
        },
        None => -1,
    }
}


/// Ends the running task with `exit_code`: it becomes a zombie that keeps
/// its exit code for its parent, its pages are cleared and their frames given
/// back (its page-table root stays until the parent reaps it), and its children
/// pass to the initial process; the caller then lets the scheduler pick
/// another task.
/// Returns true when the exiting task is the initial process itself, whose
/// exit shuts the machine down instead.
pub fn sys_exit(kernel: &mut Kernel, exit_code: i32) -> (shutdown: bool)
    requires
        old(kernel).wf(),
        old(kernel).current is Some,
        old(kernel).current != Some(INIT_PID) ==> {
            &&& !old(kernel).cur_task().children@.contains(INIT_PID)
            &&& !old(kernel).cur_task().children@.contains(old(kernel).current.unwrap())
        },
    ensures
        children_unique(*old(kernel)) ==> children_unique(*final(kernel)),
        final(kernel).wf(),
        old(kernel).pages_in_areas() ==> final(kernel).pages_in_areas(),
        shutdown == (old(kernel).current == Some(INIT_PID)),
        shutdown ==> *final(kernel) == *old(kernel),
        !shutdown ==> exit_effect(*old(kernel), *final(kernel), exit_code),
{
    let ghost o = *kernel;
    let shutdown = kernel.exit_current(exit_code);
    proof {
        if !shutdown && children_unique(o) {
            lemma_children_exit(o, *kernel, exit_code);
        }
    }
    shutdown
}


/// A child's exit code reaches its parent: once the running task `c` has
/// exited with `code` and the scheduler has picked its parent `p` (which
/// lists `c` among its children) to run, `waitpid(c, ptr)` reaps `c`, returns
/// `c`, and hands back `code` to be stored where `ptr` points.
pub proof fn law_waitpid_returns_exit_code(
    k0: Kernel,
    k1: Kernel,
    k2: Kernel,
    k3: Kernel,
    code: i32,
    ptr: u64,
    r: (isize, Option<(u64, i32)>),
)
    requires
        k0.wf(),
        k0.current is Some,
        k0.current != Some(INIT_PID),
        k0.current.unwrap() <= isize::MAX,
        k0.cur_task().parent matches Some(p) && k0.has_pid(p) && p != k0.current.unwrap()
            && k0.task(p).children@.contains(k0.current.unwrap()),
        exit_effect(k0, k1, code),
        k1.wf(),
        crate::scheduler::fetch_spec(k1, k2, k0.cur_task().parent),
        k2.wf(),
        waitpid_spec(k2, k3, k0.current.unwrap() as isize, ptr, r),
        children_unique(k0),
    ensures
        r.0 == k0.current.unwrap() as isize,
        r.1 matches Some((_, x)) && x == code,
        !k3.has_pid(k0.current.unwrap()),
        !k3.cur_task().children@.contains(k0.current.unwrap()),
{
    let c = k0.current.unwrap();
    let p = k0.cur_task().parent.unwrap();
    let ci = k0.cur_index();
    let pi = k0.index_of_pid(p);
    k0.lemma_index_of_pid(pi);
    assert(k0.tasks@[ci].pid == c);
    assert(pi != ci);
    // in k1 the tasks keep their positions and pids
    assert(k1.tasks@[ci].pid == c);
    assert(k1.tasks@[pi].pid == p);
    k1.lemma_index_of_pid(pi);
    assert(k1.tasks@[pi].children@.contains(c)) by {
        let w = choose|w: int| 0 <= w < k0.tasks@[pi].children@.len() && k0.tasks@[pi].children@[w] == c;
        assert(k1.tasks@[pi].children@[w] == c);
    }
    // the scheduler only touched the parent
    assert(k2.tasks@[ci] == k1.tasks@[ci]);
    assert(k2.tasks@[pi].pid == p);
    k2.lemma_index_of_pid(ci);
    k2.lemma_index_of_pid(pi);
    assert(k2.cur_index() == pi);
    let ch = k2.cur_task().children@;
    assert(ch == k1.tasks@[pi].children@);
    let w = choose|w: int| 0 <= w < ch.len() && ch[w] == c;
    assert((c as isize) as usize == c);
    assert(child_matches(c as isize, ch[w]));
    assert(waitable(k2, c as isize, ch[w]));
    let idx = choose|idx: int|
        0 <= idx < ch.len() && waitable(k2, c as isize, #[trigger] ch[idx]) && (forall|j: int|
            0 <= j < idx ==> !waitable(k2, c as isize, #[trigger] ch[j])) && r.0 == ch[idx] as isize
            && r.1 == Some((k2.mem.spec_translate_va(k2.cur_root(), ptr).unwrap(),
            k2.task(ch[idx]).exit_code)) && reap_spec(k2, k3, ch[idx], idx);
    assert(ch[idx] == c);
    assert(k2.task(c) == k2.tasks@[ci]);
    // the children lists stay unique through the exit and the scheduler step
    crate::process_tree::lemma_children_exit(k0, k1, code);
    crate::process_tree::lemma_children_one_changed(k1, k2, pi);
    let ch3 = k3.cur_task().children@;
    assert(ch3 == ch.remove(idx));
    assert(!ch3.contains(c)) by {
        if ch3.contains(c) {
            let w = choose|w: int| 0 <= w < ch3.len() && ch3[w] == c;
            let w0 = if w < idx { w } else { w + 1 };
            assert(ch[w0] == c);
            assert(k2.tasks@[pi].children@[w0] != k2.tasks@[pi].children@[idx]);
        }
    }
}

/// A reaped child is reaped once: after `waitpid` has returned the child `q`,
/// `q` is no longer among the running task's children, and asking for `q`
/// again returns -1.
pub proof fn law_waitpid_reaps_once(
    k0: Kernel,
    k1: Kernel,
    k2: Kernel,
    pid: isize,
    ptr: u64,
    ptr2: u64,
    r1: (isize, Option<(u64, i32)>),
    r2: (isize, Option<(u64, i32)>),
)
    requires
        k0.wf(),
        k0.current is Some,
        k0.next_pid <= isize::MAX,
        children_unique(k0),
        waitpid_spec(k0, k1, pid, ptr, r1),
        r1.0 >= 0,
        waitpid_spec(k1, k2, r1.0, ptr2, r2),
    ensures
        !k1.cur_task().children@.contains(r1.0 as usize),
        r2 == (-1isize, None::<(u64, i32)>),
        k2 == k1,
{
    let ch = k0.cur_task().children@;
    let idx = choose|idx: int|
        0 <= idx < ch.len() && waitable(k0, pid, #[trigger] ch[idx]) && (forall|j: int|
            0 <= j < idx ==> !waitable(k0, pid, #[trigger] ch[j])) && r1.0 == ch[idx] as isize
            && r1.1 == Some((k0.mem.spec_translate_va(k0.cur_root(), ptr).unwrap(),
            k0.task(ch[idx]).exit_code)) && reap_spec(k0, k1, ch[idx], idx);
    let q = ch[idx];
    let ci = k0.cur_index();
    assert(ch.no_duplicates()) by {
        assert forall|x: int, y: int| 0 <= x < ch.len() && 0 <= y < ch.len() && x != y implies ch[x] != ch[y] by {
            assert(k0.tasks@[ci].children@[x] != k0.tasks@[ci].children@[y]);
        }
    }
    let i = k0.index_of_pid(q);
    assert(k0.tasks@[i].pid == q);
    assert(q < k0.next_pid);
    assert(r1.0 as usize == q);
    let ch1 = k1.cur_task().children@;
    assert(ch1 == ch.remove(idx));
    assert(!ch1.contains(q)) by {
        if ch1.contains(q) {
            let w = choose|w: int| 0 <= w < ch1.len() && ch1[w] == q;
            if w < idx {
                assert(ch[w] == q);
            } else {
                assert(ch[w + 1] == q);
            }
        }
    }
    assert forall|w: int| 0 <= w < ch1.len() implies !child_matches(r1.0, #[trigger] ch1[w]) by {
        assert(ch1[w] != q);
    }
}

/// Moving the break up by `n` bytes and then down by `n` bytes puts it back
/// where it was, and both moves are granted: the first returns the old
/// break, the second the break the first one set.
pub proof fn law_sbrk_round_trip(
    k0: Kernel,
    k1: Kernel,
    k2: Kernel,
    n: i32,
    r1: Option<u64>,
    r2: Option<u64>,
)
    requires
        k0.wf(),
        k0.current is Some,
        n > 0,
        k0.cur_task().heap_bottom <= k0.cur_task().program_brk <= i64::MAX - i32::MAX,
        brk_spec(k0, k1, n, r1),
        r1 is Some,
        brk_spec(k1, k2, -n as i32, r2),
    ensures
        r1 == Some(k0.cur_task().program_brk),
        r2 == Some((k0.cur_task().program_brk + n) as u64),
        k2.cur_task().program_brk == k0.cur_task().program_brk,
{
    let t0 = k0.cur_task();
    let t1 = k1.cur_task();
    assert(brk_target(t0, n) == t0.program_brk + n);
    assert(t1.program_brk == t0.program_brk + n);
    assert(t1.heap_bottom == t0.heap_bottom);
    let i = choose|i: int| crate::memory_set::first_area_at(t0.memory_set.areas@, spec_floor(t0.heap_bottom), i) && {
        let a = t0.memory_set.areas@[i];
        let e = spec_ceil(brk_target(t0, n) as u64);
        &&& k1.cur_task().memory_set.areas@ == t0.memory_set.areas@.update(i, MapArea { end_vpn: e as u64, ..a })
        &&& n < 0 ==> {
            &&& forall|v: u64| e <= v < a.end_vpn ==> #[trigger] k1.mem.entry(t0.memory_set.root(), v) is None
            &&& forall|rt: u64, v: u64| !(rt == t0.memory_set.root() && e <= v < a.end_vpn) ==>
                #[trigger] k1.mem.entry(rt, v) == k0.mem.entry(rt, v)
            &&& k1.mem.free_frames() == k0.mem.free_frames() + (a.end_vpn - e)
        }
        &&& n >= 0 ==> {
            &&& forall|v: u64| a.end_vpn <= v < e ==> (#[trigger] k1.mem.entry(t0.memory_set.root(), v) matches Some(x)
                && x.flags == entry_flags(a.map_perm))
            &&& forall|rt: u64, v: u64| !(rt == t0.memory_set.root() && a.end_vpn <= v < e) ==>
                #[trigger] k1.mem.entry(rt, v) == k0.mem.entry(rt, v)
            &&& k1.mem.free_frames() + (e - a.end_vpn) == k0.mem.free_frames()
        }
    };
    assert(t1.memory_set.areas@[i].start_vpn == spec_floor(t1.heap_bottom));
    assert(crate::memory_set::has_area_at(t1.memory_set.areas@, spec_floor(t1.heap_bottom)));
    assert(brk_target(t1, -n as i32) == t0.program_brk);
}

/// The protection check of `mmap` is the bit test: a request with an aligned
/// start below `MAXVA` and a range where nothing is mapped succeeds exactly
/// when `port` has no bits beyond its three low ones and at least one of
/// them; the pages then get read, write and execute rights from bits 0, 1
/// and 2 of `port`, and are valid and user-accessible.
pub proof fn law_mmap_protection(old: Kernel, new: Kernel, start: u64, len: u64, port: u64, r: isize)
    requires
        mmap_spec(old, new, start, len, port, r),
        start % PAGE_SIZE == 0,
        start < MAXVA,
        !range_any_mapped(old.mem, old.cur_root(), (start / PAGE_SIZE) as int, mmap_end_vpn(start, len)),
    ensures
        (port & !0x7u64) != 0 || (port & 0x7u64) == 0 ==> r == -1 && new == old,
        (port & !0x7u64) == 0 && (port & 0x7u64) != 0 ==> {
            &&& r == 0
            &&& forall|v: u64| start / PAGE_SIZE <= v < mmap_end_vpn(start, len) ==>
                ((#[trigger] new.mem.entry(old.cur_root(), v)) matches Some(e) && {
                    &&& e.flags & PTE_V != 0
                    &&& e.flags & PTE_U != 0
                    &&& (e.flags & PTE_R != 0) == (port & 1 != 0)
                    &&& (e.flags & PTE_W != 0) == (port & 2 != 0)
                    &&& (e.flags & PTE_X != 0) == (port & 4 != 0)
                })
        },
{
    lemma_port_bits(port);
    if (port & !0x7u64) == 0 && (port & 0x7u64) != 0 {
        assert(1 <= port <= 7);
        let f = entry_flags(mmap_perm(port));
        assert(f == ((port * 2 + 16) as u8) | 1u8);
        assert({
            let g = ((port * 2 + 16) as u8) | 1u8;
            &&& g & 1u8 != 0
            &&& g & 16u8 != 0
            &&& (g & 2u8 != 0) == (port & 1 != 0)
            &&& (g & 4u8 != 0) == (port & 2 != 0)
            &&& (g & 8u8 != 0) == (port & 4 != 0)
        }) by (bit_vector)
            requires 1 <= port <= 7;
    }
}

/// Spawning loads every segment of the application with exactly its own
/// permission bits, made user-accessible: each page of segment `k` is mapped
/// in the child's table with the segment's bits, `U` and the valid bit.
pub proof fn law_spawn_keeps_segment_permissions(old: Kernel, new: Kernel, app: &AppImage, k: int, v: u64)
    requires
        spawn_effect(old, new, app),
        0 <= k < app.segments@.len(),
        spec_floor(app.segments@[k].start_va) <= v < spec_ceil(app.segments@[k].end_va),
    ensures
        new.mem.entry(new.tasks@[old.tasks@.len() as int].memory_set.root(), v) matches Some(e)
            && e.flags == app.segments@[k].perm | MAP_PERM_U | PTE_V,
{
    assert(app_areas(app)[k] == crate::loader::segment_area(app.segments@[k]));
    assert(app_areas(app)[k].spec_contains(v));
}

/// `exec` loads every segment of the application with exactly its own
/// permission bits, made user-accessible, in the task's new table.
pub proof fn law_exec_keeps_segment_permissions(old: Kernel, new: Kernel, app: &AppImage, k: int, v: u64)
    requires
        exec_effect(old, new, app),
        0 <= k < app.segments@.len(),
        spec_floor(app.segments@[k].start_va) <= v < spec_ceil(app.segments@[k].end_va),
    ensures
        new.mem.entry(new.tasks@[old.cur_index()].memory_set.root(), v) matches Some(e)
            && e.flags == app.segments@[k].perm | MAP_PERM_U | PTE_V,
{
    assert(app_areas(app)[k] == crate::loader::segment_area(app.segments@[k]));
    assert(app_areas(app)[k].spec_contains(v));
}

/// A successful `mmap` maps exactly the pages from the page of `start` up to
/// the first page at or above `start + len` (an address cut to 39 bits),
/// each to a fresh frame; no other entry of any table changes.
pub proof fn law_mmap_range(old: Kernel, new: Kernel, start: u64, len: u64, port: u64, r: isize)
    requires
        mmap_spec(old, new, start, len, port, r),
        r == 0,
        start + len <= u64::MAX,
    ensures
        ({
            let s = start as int / 4096;
            let e = (((start as int + len as int) % 0x80_0000_0000) + 4095) / 4096;
            &&& forall|v: u64| s <= v < e ==> (#[trigger] new.mem.entry(old.cur_root(), v)) is Some
                && !old.mem.is_mapped(old.cur_root(), v)
            &&& forall|rt: u64, v: u64| !(rt == old.cur_root() && s <= v < e)
                ==> #[trigger] new.mem.entry(rt, v) == old.mem.entry(rt, v)
            &&& new.mem.free_frames() + (e - s) == old.mem.free_frames()
        }),
{
    let s = start as int / 4096;
    let e = mmap_end_vpn(start, len);
    assert(((start + len) as u64) as int == start + len);
    assert(spec_virt_addr((start + len) as u64) as int == (start as int + len as int) % 0x80_0000_0000);
    assert(e == (((start as int + len as int) % 0x80_0000_0000) + 4095) / 4096);
    assert forall|v: u64| s <= v < e implies !old.mem.is_mapped(old.cur_root(), v) by {
        assert(!range_any_mapped(old.mem, old.cur_root(), s, e));
    }
}

/// A successful `munmap` clears exactly the pages from the page of `start`
/// up to the first page at or above `start + len`, the range ending at
/// `MAXVA` at the latest; it succeeds exactly when `start` is page aligned,
/// below `MAXVA`, and every page of that range is mapped.
pub proof fn law_munmap_range(old: Kernel, new: Kernel, start: u64, len: u64, r: isize)
    requires
        munmap_spec(old, new, start, len, r),
    ensures
        ({
            let s = start as int / 4096;
            let end = if start < MAXVA && len > MAXVA - start { MAXVA as int } else { start + len };
            let e = (end + 4095) / 4096;
            &&& r == 0 <==> (start % 4096 == 0 && start < MAXVA
                && forall|v: u64| s <= v < e ==> #[trigger] old.mem.is_mapped(old.cur_root(), v))
            &&& r != 0 ==> r == -1 && new == old
            &&& r == 0 ==> {
                &&& forall|v: u64| s <= v < e ==> (#[trigger] new.mem.entry(old.cur_root(), v)) is None
                &&& forall|rt: u64, v: u64| !(rt == old.cur_root() && s <= v < e)
                    ==> #[trigger] new.mem.entry(rt, v) == old.mem.entry(rt, v)
                &&& new.mem.free_frames() == old.mem.free_frames() + (e - s)
            }
        }),
{
    if start < MAXVA {
        let end = if len > MAXVA - start { MAXVA as int } else { start + len };
        assert(spec_ceil((start + munmap_len(start, len)) as u64) == (end + 4095) / 4096);
    }
}

/// The bytes that `sys_get_time` stores for a `TimeVal` are its two fields,
/// each least significant byte first: reading them back gives `sec` and
/// `usec`.
pub proof fn law_time_val_layout(t: TimeVal)
    ensures
        time_val_bytes(t).len() == 16,
        t.sec as int == time_val_bytes(t)[0] + time_val_bytes(t)[1] * 0x100 + time_val_bytes(t)[2] * 0x1_0000
            + time_val_bytes(t)[3] * 0x100_0000 + time_val_bytes(t)[4] * 0x1_0000_0000
            + time_val_bytes(t)[5] * 0x100_0000_0000 + time_val_bytes(t)[6] * 0x1_0000_0000_0000
            + time_val_bytes(t)[7] * 0x100_0000_0000_0000,
        t.usec as int == time_val_bytes(t)[8] + time_val_bytes(t)[9] * 0x100 + time_val_bytes(t)[10] * 0x1_0000
            + time_val_bytes(t)[11] * 0x100_0000 + time_val_bytes(t)[12] * 0x1_0000_0000
            + time_val_bytes(t)[13] * 0x100_0000_0000 + time_val_bytes(t)[14] * 0x1_0000_0000_0000
            + time_val_bytes(t)[15] * 0x100_0000_0000_0000,
{
    lemma_le_bytes_value(t.sec);
    lemma_le_bytes_value(t.usec);
    let b = time_val_bytes(t);
    assert forall|k: int| 0 <= k < 8 implies b[k] == le_bytes(t.sec)[k] && b[8 + k] == le_bytes(t.usec)[k] by {}
}

proof fn lemma_le_bytes_value(x: u64)
    ensures
        x as int == le_bytes(x)[0] + le_bytes(x)[1] * 0x100 + le_bytes(x)[2] * 0x1_0000 + le_bytes(x)[3] * 0x100_0000
            + le_bytes(x)[4] * 0x1_0000_0000 + le_bytes(x)[5] * 0x100_0000_0000 + le_bytes(x)[6] * 0x1_0000_0000_0000
            + le_bytes(x)[7] * 0x100_0000_0000_0000,
{
    let b = le_bytes(x);
    assert(b[0] == ((x >> 0u64) & 0xff) as u8);
    assert(b[1] == ((x >> 8u64) & 0xff) as u8);
    assert(b[2] == ((x >> 16u64) & 0xff) as u8);
    assert(b[3] == ((x >> 24u64) & 0xff) as u8);
    assert(b[4] == ((x >> 32u64) & 0xff) as u8);
    assert(b[5] == ((x >> 40u64) & 0xff) as u8);
    assert(b[6] == ((x >> 48u64) & 0xff) as u8);
    assert(b[7] == ((x >> 56u64) & 0xff) as u8);
    assert(x as int == (((x >> 0u64) & 0xff) as u8) + (((x >> 8u64) & 0xff) as u8) * 0x100
        + (((x >> 16u64) & 0xff) as u8) * 0x1_0000 + (((x >> 24u64) & 0xff) as u8) * 0x100_0000
        + (((x >> 32u64) & 0xff) as u8) * 0x1_0000_0000 + (((x >> 40u64) & 0xff) as u8) * 0x100_0000_0000
        + (((x >> 48u64) & 0xff) as u8) * 0x1_0000_0000_0000 + (((x >> 56u64) & 0xff) as u8) * 0x100_0000_0000_0000)
        by (bit_vector);
}

/// The pages a freshly loaded application has: those of its segments, a
/// two-page stack one guard page above the last segment, and the
/// trap-context page just below the top of the address space.
pub open spec fn loaded_page(app: &AppImage, v: u64) -> bool {
    let segs = app.segments@;
    let e = if segs.len() == 0 { 0 } else { spec_ceil(segs.last().end_va) };
    ||| exists|k: int| 0 <= k < segs.len() && spec_floor(#[trigger] segs[k].start_va) <= v < spec_ceil(segs[k].end_va)
    ||| e + 1 <= v < e + 3
    ||| v == 0x7ff_fffe
}

proof fn lemma_app_areas_cover(app: &AppImage, v: u64)
    ensures
        areas_cover(app_areas(app), v) <==> loaded_page(app, v),
{
    let segs = app.segments@;
    let aa = app_areas(app);
    let n = segs.len() as int;
    assert(aa.len() == n + 3);
    assert forall|k: int| 0 <= k < n implies #[trigger] aa[k] == crate::loader::segment_area(segs[k]) by {}
    if areas_cover(aa, v) {
        let k = choose|k: int| 0 <= k < aa.len() && (#[trigger] aa[k]).spec_contains(v);
        if k < n {
            assert(spec_floor(segs[k].start_va) <= v < spec_ceil(segs[k].end_va));
        }
    }
    if loaded_page(app, v) {
        let e = if segs.len() == 0 { 0 } else { spec_ceil(segs.last().end_va) };
        if exists|k: int| 0 <= k < n && spec_floor(#[trigger] segs[k].start_va) <= v < spec_ceil(segs[k].end_va) {
            let k = choose|k: int| 0 <= k < n && spec_floor(#[trigger] segs[k].start_va) <= v < spec_ceil(segs[k].end_va);
            assert(aa[k].spec_contains(v));
        } else if e + 1 <= v < e + 3 {
            assert(aa[n].spec_contains(v));
        } else {
            assert(aa[n + 2].spec_contains(v));
        }
    }
}

/// A spawned child has exactly the pages of a freshly loaded application
/// mapped (see `loaded_page`): its segments, its stack and its trap-context
/// page, and nothing else.
pub proof fn law_spawn_maps_exactly(old: Kernel, new: Kernel, app: &AppImage)
    requires
        spawn_effect(old, new, app),
    ensures
        forall|v: u64| #[trigger] new.mem.is_mapped(new.tasks@[old.tasks@.len() as int].memory_set.root(), v)
            <==> loaded_page(app, v),
{
    assert forall|v: u64| #[trigger] new.mem.is_mapped(new.tasks@[old.tasks@.len() as int].memory_set.root(), v)
        <==> loaded_page(app, v) by {
        lemma_app_areas_cover(app, v);
    }
}

/// After `exec` the task has exactly the pages of a freshly loaded
/// application mapped in its new table, and nothing else.
pub proof fn law_exec_maps_exactly(old: Kernel, new: Kernel, app: &AppImage)
    requires
        exec_effect(old, new, app),
    ensures
        forall|v: u64| #[trigger] new.mem.is_mapped(new.tasks@[old.cur_index()].memory_set.root(), v)
            <==> loaded_page(app, v),
{
    assert forall|v: u64| #[trigger] new.mem.is_mapped(new.tasks@[old.cur_index()].memory_set.root(), v)
        <==> loaded_page(app, v) by {
        lemma_app_areas_cover(app, v);
    }
}

/// What `waitpid(pid, ..)` answers, from the running task's children: -1
/// when none is asked for (any child for `pid == -1`, else the child with
/// that pid); -2 when some is asked for but none of those has exited;
/// otherwise the pid of the first exited child asked for, with its exit code,
/// and that child is gone.
pub proof fn law_waitpid_results(old: Kernel, new: Kernel, pid: isize, ptr: u64, r: (isize, Option<(u64, i32)>))
    requires
        waitpid_spec(old, new, pid, ptr, r),
    ensures
        ({
            let ch = old.cur_task().children@;
            let asked = |c: usize| pid == -1 || pid as usize == c;
            let exited = |c: usize| old.has_pid(c) && old.task(c).status == TaskStatus::Zombie;
            &&& !(exists|i: int| 0 <= i < ch.len() && asked(ch[i])) ==> r == (-1isize, None::<(u64, i32)>) && new == old
            &&& (exists|i: int| 0 <= i < ch.len() && asked(ch[i]))
                && !(exists|i: int| 0 <= i < ch.len() && asked(ch[i]) && exited(ch[i]))
                ==> r == (-2isize, None::<(u64, i32)>) && new == old
            &&& (exists|i: int| 0 <= i < ch.len() && asked(ch[i]) && exited(ch[i])) ==> exists|i: int|
                0 <= i < ch.len() && asked(ch[i]) && exited(ch[i])
                && (forall|j: int| 0 <= j < i ==> !(asked(ch[j]) && exited(ch[j])))
                && r.0 == ch[i] as isize && (r.1 matches Some((_, code)) && code == old.task(ch[i]).exit_code)
                && !new.has_pid(ch[i])
        }),
{
    let ch = old.cur_task().children@;
    let asked = |c: usize| pid == -1 || pid as usize == c;
    let exited = |c: usize| old.has_pid(c) && old.task(c).status == TaskStatus::Zombie;
    assert forall|i: int| 0 <= i < ch.len() implies (asked(ch[i]) == child_matches(pid, #[trigger] ch[i])
        && (asked(ch[i]) && exited(ch[i])) == waitable(old, pid, ch[i])) by {}
    if exists|i: int| 0 <= i < ch.len() && asked(ch[i]) {
        let i = choose|i: int| 0 <= i < ch.len() && asked(ch[i]);
        assert(child_matches(pid, ch[i]));
    }
    if exists|i: int| 0 <= i < ch.len() && asked(ch[i]) && exited(ch[i]) {
        let i = choose|i: int| 0 <= i < ch.len() && asked(ch[i]) && exited(ch[i]);
        assert(waitable(old, pid, ch[i]));
        let idx = choose|idx: int|
            0 <= idx < ch.len() && waitable(old, pid, #[trigger] ch[idx]) && (forall|j: int|
                0 <= j < idx ==> !waitable(old, pid, #[trigger] ch[j])) && r.0 == ch[idx] as isize
                && r.1 == Some((old.mem.spec_translate_va(old.cur_root(), ptr).unwrap(),
                old.task(ch[idx]).exit_code)) && reap_spec(old, new, ch[idx], idx);
        assert(asked(ch[idx]) && exited(ch[idx]));
    }
}

/// `sbrk(size)` is refused, with -1 and no change, exactly when the new
/// break `program_brk + size` would lie below the bottom of the heap or the
/// task has no area starting at the heap's first page; otherwise the old
/// break is returned and the break becomes `program_brk + size`.
pub proof fn law_sbrk_result(old: Kernel, new: Kernel, size: i32, r: Option<u64>)
    requires
        brk_spec(old, new, size, r),
    ensures
        ({
            let t = old.cur_task();
            let target = t.program_brk as i64 + size as int;
            let has_heap = exists|i: int| 0 <= i < t.memory_set.areas@.len()
                && (#[trigger] t.memory_set.areas@[i]).start_vpn == t.heap_bottom / 4096;
            &&& (target < t.heap_bottom as i64 || !has_heap) ==> r is None && new == old
            &&& !(target < t.heap_bottom as i64 || !has_heap) ==> r == Some(t.program_brk)
                && new.cur_task().program_brk == target as u64
        }),
{
}

} // verus!
