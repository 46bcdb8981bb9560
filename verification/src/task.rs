use vstd::prelude::*;
use crate::config::{VPN_SPACE, INIT_PID, DEFAULT_PRIORITY};
use crate::page_table::{PhysMemory, PageTableEntry, entry_flags};
use crate::memory_set::{cut_areas, lemma_cut_areas, MemorySet, MapArea, areas_cover, areas_disjoint, total_pages};
use crate::address::{floor, spec_floor, spec_ceil};
use crate::loader::{AppImage, app_areas, app_fits, app_frames, app_stack_top};

verus! {

/// Scheduling state of a task.
#[derive(Clone, Copy, Debug, PartialEq, Eq, Structural)]
pub enum TaskStatus {
    Ready,
    Running,
    Zombie,
}

/// A process: its identity, its place in the process tree, its address
/// space and the registers and counters that the system calls touch.
pub struct TaskControlBlock {
    pub pid: usize,
    pub parent: Option<usize>,
    pub children: Vec<usize>,
    pub status: TaskStatus,
    pub exit_code: i32,
    pub memory_set: MemorySet,
    /// Register `a0` (`x10`) of the saved user context: the value a system
    /// call returns to user mode.
    pub trap_a0: u64,
    /// Saved user program counter.
    pub trap_pc: u64,
    /// Saved user stack pointer.
    pub trap_sp: u64,
    pub priority: u64,
    pub stride: u64,
    pub heap_bottom: u64,
    pub program_brk: u64,
    /// How many times the task has made each system call, by call number;
    /// numbers past the end have not been made.
    pub syscall_times: Vec<u64>,
}

/// Every field of a task but its memory areas is the same in `a` and `b`.
pub open spec fn same_but_areas(a: TaskControlBlock, b: TaskControlBlock) -> bool {
    &&& a.pid == b.pid
    &&& a.parent == b.parent
    &&& a.children@ == b.children@
    &&& a.status == b.status
    &&& a.exit_code == b.exit_code
    &&& a.memory_set.page_table == b.memory_set.page_table
    &&& a.trap_a0 == b.trap_a0
    &&& a.trap_pc == b.trap_pc
    &&& a.trap_sp == b.trap_sp
    &&& a.priority == b.priority
    &&& a.stride == b.stride
    &&& a.heap_bottom == b.heap_bottom
    &&& a.program_brk == b.program_brk
    &&& a.syscall_times@ == b.syscall_times@
}

/// Every field of a task is the same in `a` and `b`.
pub open spec fn same_task(a: TaskControlBlock, b: TaskControlBlock) -> bool {
    same_but_areas(a, b) && a.memory_set.areas@ == b.memory_set.areas@
}

/// The state of the kernel that the process and memory system calls act on:
/// physical memory, every task not yet reaped, the running task, the queue
/// of ready tasks, the next pid to hand out, and the loadable applications.
pub struct Kernel {
    pub mem: PhysMemory,
    pub tasks: Vec<TaskControlBlock>,
    pub current: Option<usize>,
    pub ready_queue: Vec<usize>,
    pub next_pid: usize,
    pub apps: Vec<AppImage>,
}

impl Kernel {
    /// Some task has the pid `pid`.
    pub open spec fn has_pid(self, pid: usize) -> bool {
        exists|i: int| 0 <= i < self.tasks@.len() && (#[trigger] self.tasks@[i]).pid == pid
    }

    /// Position of the task with pid `pid`.
    pub open spec fn index_of_pid(self, pid: usize) -> int {
        choose|i: int| 0 <= i < self.tasks@.len() && (#[trigger] self.tasks@[i]).pid == pid
    }

    /// The task with pid `pid`.
    pub open spec fn task(self, pid: usize) -> TaskControlBlock {
        self.tasks@[self.index_of_pid(pid)]
    }

    /// Position of the running task.
    pub open spec fn cur_index(self) -> int {
        self.index_of_pid(self.current.unwrap())
    }

    /// The running task.
    pub open spec fn cur_task(self) -> TaskControlBlock {
        self.tasks@[self.cur_index()]
    }

    /// Root of the running task's page table.
    pub open spec fn cur_root(self) -> u64 {
        self.cur_task().memory_set.root()
    }

    /// No two tasks share a pid.
    pub open spec fn pids_unique(self) -> bool {
        forall|i: int, j: int|
            0 <= i < j < self.tasks@.len() ==> (#[trigger] self.tasks@[i]).pid != (#[trigger] self.tasks@[j]).pid
    }

    /// Well-formedness: memory is well formed; pids are unique and below
    /// `next_pid`; every task owns a live page table of its own, which is
    /// empty once the task is a zombie; the running task exists and is not
    /// a zombie.
    pub open spec fn wf(self) -> bool {
        &&& self.mem.wf()
        &&& self.pids_unique()
        &&& forall|i: int| 0 <= i < self.tasks@.len() ==> {
            let t = #[trigger] self.tasks@[i];
            &&& t.memory_set.wf(&self.mem)
            &&& t.pid < self.next_pid
            &&& t.status == TaskStatus::Zombie ==> forall|v: u64| #[trigger] self.mem.entry(t.memory_set.root(), v) is None
        }
        &&& forall|i: int, j: int|
            0 <= i < j < self.tasks@.len() ==> (#[trigger] self.tasks@[i]).memory_set.root()
                != (#[trigger] self.tasks@[j]).memory_set.root()
        &&& self.current matches Some(p) ==> self.has_pid(p) && self.task(p).status != TaskStatus::Zombie
    }

    /// Every valid page of every task's page table lies in one of the
    /// task's areas.
    pub open spec fn pages_in_areas(self) -> bool {
        forall|i: int, v: u64|
            0 <= i < self.tasks@.len() && (#[trigger] self.mem.entry(self.tasks@[i].memory_set.root(), v)) is Some
                ==> self.tasks@[i].memory_set.covers(v)
    }

    /// Under unique pids, the task found for a pid is the one stored there.
    pub proof fn lemma_index_of_pid(self, i: int)
        requires
            self.pids_unique(),
            0 <= i < self.tasks@.len(),
        ensures
            self.has_pid(self.tasks@[i].pid),
            self.index_of_pid(self.tasks@[i].pid) == i,
    {
        let j = self.index_of_pid(self.tasks@[i].pid);
        if j < i {
            assert(self.tasks@[j].pid != self.tasks@[i].pid);
        } else if i < j {
            assert(self.tasks@[i].pid != self.tasks@[j].pid);
        }
    }

    /// Position of the task with pid `pid`, if there is one.
    pub fn find_task(&self, pid: usize) -> (r: Option<usize>)
        requires
            self.pids_unique(),
        ensures
            match r {
                Some(i) => i < self.tasks@.len() && self.tasks@[i as int].pid == pid
                    && self.index_of_pid(pid) == i,
                None => !self.has_pid(pid),
            },
    {
        let mut i: usize = 0;
        while i < self.tasks.len()
            invariant
                self.pids_unique(),
                i <= self.tasks@.len(),
                forall|k: int| 0 <= k < i ==> (#[trigger] self.tasks@[k]).pid != pid,
            decreases self.tasks@.len() - i,
        {
            if self.tasks[i].pid == pid {
                proof { self.lemma_index_of_pid(i as int); }
                return Some(i);
            }
            i = i + 1;
        }
        None
    }

    /// Position of the running task.
    pub fn current_index(&self) -> (r: usize)
        requires
            self.wf(),
            self.current is Some,
        ensures
            r == self.cur_index(),
            r < self.tasks@.len(),
    {
        let pid = match self.current {
            Some(p) => p,
            None => { assert(false); 0 },
        };
        match self.find_task(pid) {
            Some(i) => i,
            None => { assert(false); 0 },
        }
    }
}


/// The kernel stays well formed when only the running task's areas and its
/// own page table changed, in a way that keeps its valid pages inside its
/// areas.
pub proof fn lemma_wf_after_current_space_change(old: Kernel, new: Kernel)
    requires
        old.wf(),
        old.current is Some,
        new.mem.wf(),
        new.current == old.current,
        new.next_pid == old.next_pid,
        new.tasks@.len() == old.tasks@.len(),
        forall|j: int| 0 <= j < old.tasks@.len() && j != old.cur_index() ==> #[trigger] new.tasks@[j] == old.tasks@[j],
        new.tasks@[old.cur_index()].pid == old.tasks@[old.cur_index()].pid,
        new.tasks@[old.cur_index()].status == old.tasks@[old.cur_index()].status,
        new.tasks@[old.cur_index()].memory_set.page_table == old.tasks@[old.cur_index()].memory_set.page_table,
        new.mem.roots@ == old.mem.roots@,
        forall|r: u64, v: u64| r != old.cur_root() ==> #[trigger] new.mem.entry(r, v) == old.mem.entry(r, v),
        new.tasks@[old.cur_index()].memory_set.wf(&new.mem),
    ensures
        new.wf(),
        old.pages_in_areas() && (forall|v: u64| #[trigger] new.mem.entry(old.cur_root(), v) is Some
            ==> new.tasks@[old.cur_index()].memory_set.covers(v)) ==> new.pages_in_areas(),
        new.cur_index() == old.cur_index(),
        new.cur_root() == old.cur_root(),
{
    let ci = old.cur_index();
    let p = old.current.unwrap();
    assert(old.tasks@[ci].pid == p);
    assert forall|i: int, j: int|
        0 <= i < j < new.tasks@.len() implies (#[trigger] new.tasks@[i]).pid != (#[trigger] new.tasks@[j]).pid by {
        assert(old.tasks@[i].pid != old.tasks@[j].pid);
    }
    assert(new.tasks@[ci].pid == p);
    new.lemma_index_of_pid(ci);
    assert forall|i: int| 0 <= i < new.tasks@.len() implies {
        let t = #[trigger] new.tasks@[i];
        &&& t.memory_set.wf(&new.mem)
        &&& t.pid < new.next_pid
        &&& t.status == TaskStatus::Zombie ==> forall|v: u64| #[trigger] new.mem.entry(t.memory_set.root(), v) is None
    } by {
        let t = new.tasks@[i];
        if i != ci {
            assert(t == old.tasks@[i]);
            assert(old.tasks@[i].memory_set.wf(&old.mem));
            assert(t.memory_set.root() != old.cur_root()) by {
                if i < ci {
                    assert(old.tasks@[i].memory_set.root() != old.tasks@[ci].memory_set.root());
                } else {
                    assert(old.tasks@[ci].memory_set.root() != old.tasks@[i].memory_set.root());
                }
            }
            if t.status == TaskStatus::Zombie {
                assert forall|v: u64| #[trigger] new.mem.entry(t.memory_set.root(), v) is None by {
                    assert(old.mem.entry(t.memory_set.root(), v) is None);
                }
            }
        } else {
            assert(old.tasks@[ci].status != TaskStatus::Zombie);
        }
    }
    assert forall|i: int, j: int|
        0 <= i < j < new.tasks@.len() implies (#[trigger] new.tasks@[i]).memory_set.root()
            != (#[trigger] new.tasks@[j]).memory_set.root() by {
        assert(old.tasks@[i].memory_set.root() != old.tasks@[j].memory_set.root());
    }
    if old.pages_in_areas() && (forall|v: u64| #[trigger] new.mem.entry(old.cur_root(), v) is Some
            ==> new.tasks@[old.cur_index()].memory_set.covers(v)) {
        assert forall|i: int, v: u64|
            0 <= i < new.tasks@.len() && (#[trigger] new.mem.entry(new.tasks@[i].memory_set.root(), v)) is Some
                implies new.tasks@[i].memory_set.covers(v) by {
            if i != ci {
                let r = old.tasks@[i].memory_set.root();
                assert(r != old.cur_root()) by {
                    if i < ci {
                        assert(old.tasks@[i].memory_set.root() != old.tasks@[ci].memory_set.root());
                    } else {
                        assert(old.tasks@[ci].memory_set.root() != old.tasks@[i].memory_set.root());
                    }
                }
                assert(old.mem.entry(r, v) is Some);
            }
        }
    }
}

impl Kernel {
    /// Walks the running task's page table for the page `vpn`.
    pub fn current_translate(&self, vpn: u64) -> (r: Option<PageTableEntry>)
        requires
            self.wf(),
            self.current is Some,
        ensures
            r == self.mem.spec_translate(self.cur_root(), vpn),
    {
        let i = self.current_index();
        self.tasks[i].memory_set.translate(&self.mem, vpn)
    }

    /// Records in the running task the framed area from the page holding
    /// `start_va` up to the first page at or above `end_va`, with permissions
    /// `perm`, and maps every page of it to a fresh frame.
    pub fn create_new_map_area(&mut self, start_va: u64, end_va: u64, perm: u8)
        requires
            old(self).wf(),
            old(self).current is Some,
            spec_floor(start_va) <= spec_ceil(end_va) <= VPN_SPACE,
            forall|v: u64|
                spec_floor(start_va) <= v < spec_ceil(end_va) ==> !old(self).mem.is_mapped(old(self).cur_root(), v),
            old(self).mem.free_frames() >= spec_ceil(end_va) - spec_floor(start_va),
        ensures
            old(self).pages_in_areas() ==> final(self).pages_in_areas(),
            final(self).wf(),
            final(self).current == old(self).current,
            final(self).next_pid == old(self).next_pid,
            final(self).ready_queue@ == old(self).ready_queue@,
            final(self).tasks@.len() == old(self).tasks@.len(),
            final(self).cur_index() == old(self).cur_index(),
            final(self).cur_root() == old(self).cur_root(),
            forall|j: int| 0 <= j < old(self).tasks@.len() && j != old(self).cur_index() ==>
                #[trigger] final(self).tasks@[j] == old(self).tasks@[j],
            same_but_areas(final(self).cur_task(), old(self).cur_task()),
            final(self).cur_task().memory_set.areas@ == old(self).cur_task().memory_set.areas@.push(MapArea {
                start_vpn: spec_floor(start_va),
                end_vpn: spec_ceil(end_va) as u64,
                map_perm: perm,
            }),
            forall|v: u64|
                spec_floor(start_va) <= v < spec_ceil(end_va) ==> (#[trigger] final(self).mem.entry(old(self).cur_root(), v) matches Some(e)
                    && e.flags == entry_flags(perm)),
            forall|r: u64, v: u64|
                !(r == old(self).cur_root() && spec_floor(start_va) <= v < spec_ceil(end_va)) ==> #[trigger] final(self).mem.entry(r, v)
                    == old(self).mem.entry(r, v),
            final(self).mem.roots@ == old(self).mem.roots@,
            final(self).mem.free_frames() + (spec_ceil(end_va) - spec_floor(start_va)) == old(self).mem.free_frames(),
    {
        let i = self.current_index();
        let ghost o = *self;
        let mut t = self.tasks.remove(i);
        proof {
            assert(t == o.tasks@[i as int]);
            assert(o.tasks@[i as int].memory_set.wf(&o.mem));
        }
        t.memory_set.insert_framed_area(&mut self.mem, start_va, end_va, perm);
        self.tasks.insert(i, t);
        proof {
            assert(self.tasks@ == o.tasks@.update(i as int, t));
            let area = MapArea { start_vpn: spec_floor(start_va), end_vpn: spec_ceil(end_va) as u64, map_perm: perm };
            let n = o.tasks@[i as int].memory_set.areas@.len() as int;
            assert(t.memory_set.areas@[n] == area);
            if o.pages_in_areas() {
                assert forall|v: u64| #[trigger] self.mem.entry(o.cur_root(), v) is Some
                    implies t.memory_set.covers(v) by {
                    if spec_floor(start_va) <= v < spec_ceil(end_va) {
                        assert(t.memory_set.areas@[n].spec_contains(v));
                    } else {
                        assert(o.mem.entry(o.cur_root(), v) is Some);
                        assert(o.tasks@[i as int].memory_set.covers(v));
                        let k = choose|k: int| 0 <= k < n && (#[trigger] o.tasks@[i as int].memory_set.areas@[k]).spec_contains(v);
                        assert(t.memory_set.areas@[k] == o.tasks@[i as int].memory_set.areas@[k]);
                    }
                }
            }
            lemma_wf_after_current_space_change(o, *self);
        }
    }
}


/// Some page of `[s, e)` in the table `root` has a valid entry pointing to
/// the frame `ppn`.
pub open spec fn range_owns(mem: PhysMemory, root: u64, s: int, e: int, ppn: u64) -> bool {
    exists|v: u64| s <= v < e && ((#[trigger] mem.entry(root, v)) matches Some(x) && x.ppn == ppn)
}

/// Every page of `[s, e)` in the table `root` is mapped by a valid entry.
pub open spec fn range_all_mapped(mem: PhysMemory, root: u64, s: int, e: int) -> bool {
    forall|v: u64| s <= v < e ==> #[trigger] mem.is_mapped(root, v)
}

/// Some page of `[s, e)` in the table `root` is mapped by a valid entry.
pub open spec fn range_any_mapped(mem: PhysMemory, root: u64, s: int, e: int) -> bool {
    exists|v: u64| s <= v < e && #[trigger] mem.is_mapped(root, v)
}

/// What a walk finds is a valid entry exactly when the page is mapped.
pub proof fn lemma_translate_valid(mem: PhysMemory, root: u64, vpn: u64)
    requires
        mem.wf(),
    ensures
        (mem.spec_translate(root, vpn) matches Some(p) && p.valid()) <==> mem.is_mapped(root, vpn),
        mem.spec_translate(root, vpn) is None ==> !mem.is_mapped(root, vpn),
{
    assert(0u8 & 1u8 == 0u8) by (bit_vector);
    if mem.is_mapped(root, vpn) {
        let i = mem.index_of(root, vpn);
        assert(mem.mappings@[i].pte.valid());
    }
}

impl Kernel {
    /// Unmaps the running task's pages from the one holding `start` up to
    /// the first page at or above `start + len`, giving their frames back.
    /// Fails with -1, changing nothing, when one of those pages is not mapped.
    pub fn unmap_consecutive_area(&mut self, start: u64, len: u64) -> (r: isize)
        requires
            old(self).wf(),
            old(self).current is Some,
            start + len <= crate::config::MAXVA,
        ensures
            old(self).pages_in_areas() ==> final(self).pages_in_areas(),
            final(self).wf(),
            r == 0 || r == -1,
            r == -1 <==> !range_all_mapped(old(self).mem, old(self).cur_root(), spec_floor(start) as int,
                spec_ceil((start + len) as u64)),
            r == -1 ==> *final(self) == *old(self),
            r == 0 ==> {
                &&& final(self).current == old(self).current
                &&& final(self).next_pid == old(self).next_pid
                &&& final(self).ready_queue@ == old(self).ready_queue@
                &&& final(self).tasks@.len() == old(self).tasks@.len()
                &&& forall|j: int| 0 <= j < old(self).tasks@.len() ==> same_but_areas(#[trigger] final(self).tasks@[j], old(self).tasks@[j])
                &&& forall|j: int| 0 <= j < old(self).tasks@.len() && j != old(self).cur_index() ==>
                    #[trigger] final(self).tasks@[j] == old(self).tasks@[j]
                &&& final(self).cur_task().memory_set.areas@ == cut_areas(old(self).cur_task().memory_set.areas@,
                    spec_floor(start), spec_ceil((start + len) as u64) as u64)
                &&& final(self).cur_index() == old(self).cur_index()
                &&& final(self).cur_root() == old(self).cur_root()
                &&& forall|v: u64| spec_floor(start) <= v < spec_ceil((start + len) as u64)
                    ==> #[trigger] final(self).mem.entry(old(self).cur_root(), v) is None
                &&& forall|rt: u64, v: u64|
                    !(rt == old(self).cur_root() && spec_floor(start) <= v < spec_ceil((start + len) as u64))
                        ==> #[trigger] final(self).mem.entry(rt, v) == old(self).mem.entry(rt, v)
                &&& final(self).mem.roots@ == old(self).mem.roots@
                &&& final(self).mem.leaf_tables@ == old(self).mem.leaf_tables@
                &&& final(self).mem.free_frames() == old(self).mem.free_frames()
                    + (spec_ceil((start + len) as u64) - spec_floor(start))
                &&& forall|p: u64| #[trigger] final(self).mem.frames.is_allocated(p) <==> (
                    old(self).mem.frames.is_allocated(p) && !range_owns(old(self).mem, old(self).cur_root(),
                    spec_floor(start) as int, spec_ceil((start + len) as u64), p))
            },
    {
        let s = crate::address::floor(start);
        let e = crate::address::ceil(start + len);
        let i = self.current_index();
        let ghost root = self.cur_root();
        let mut vpn = s;
        while vpn < e
            invariant
                self.wf(),
                self.current is Some,
                i == self.cur_index(),
                root == self.cur_root(),
                s <= vpn,
                s == spec_floor(start),
                e == spec_ceil((start + len) as u64),
                forall|v: u64| s <= v < vpn ==> #[trigger] self.mem.is_mapped(root, v),
            decreases e - vpn,
        {
            let found = self.tasks[i].memory_set.translate(&self.mem, vpn);
            proof { lemma_translate_valid(self.mem, root, vpn); }
            match found {
                Some(pte) => {
                    if !pte.is_valid() {
                        return -1;
                    }
                },
                None => {
                    return -1;
                },
            }
            vpn = vpn + 1;
        }
        let ghost o = *self;
        let mut t = self.tasks.remove(i);
        proof {
            assert(t == o.tasks@[i as int]);
        }
        let mut vpn = s;
        while vpn < e
            invariant
                s <= vpn <= e,
                s == spec_floor(start),
                e == spec_ceil((start + len) as u64),
                e <= VPN_SPACE,
                o.wf(),
                o.current is Some,
                i == o.cur_index(),
                root == o.cur_root(),
                t == o.tasks@[i as int],
                i < o.tasks@.len(),
                self.tasks@ == o.tasks@.remove(i as int),
                self.current == o.current,
                self.next_pid == o.next_pid,
                self.ready_queue@ == o.ready_queue@,
                self.mem.wf(),
                self.mem.roots@ == o.mem.roots@,
                self.mem.leaf_tables@ == o.mem.leaf_tables@,
                self.mem.frames.end == o.mem.frames.end,
                self.mem.free_frames() == o.mem.free_frames() + (vpn - s),
                range_all_mapped(o.mem, root, s as int, e as int),
                forall|v: u64| s <= v < vpn ==> #[trigger] self.mem.entry(root, v) is None,
                forall|rt: u64, v: u64| !(rt == root && s <= v < vpn) ==> #[trigger] self.mem.entry(rt, v)
                    == o.mem.entry(rt, v),
                forall|p: u64| #[trigger] self.mem.frames.is_allocated(p) <==> (o.mem.frames.is_allocated(p)
                    && !range_owns(o.mem, root, s as int, vpn as int, p)),
            decreases e - vpn,
        {
            let ghost before = self.mem;
            proof {
                assert(o.mem.is_mapped(root, vpn));
                assert(before.entry(root, vpn) == o.mem.entry(root, vpn));
            }
            self.mem.unmap_framed(t.memory_set.page_table.root_ppn, vpn);
            proof {
                let q = o.mem.entry(root, vpn).unwrap().ppn;
                assert forall|p: u64| #[trigger] self.mem.frames.is_allocated(p) <==> (o.mem.frames.is_allocated(p)
                    && !range_owns(o.mem, root, s as int, vpn + 1, p)) by {
                    if p == q {
                        assert(o.mem.entry(root, vpn) matches Some(x) && x.ppn == p);
                        assert(range_owns(o.mem, root, s as int, vpn + 1, p));
                    } else {
                        if range_owns(o.mem, root, s as int, vpn + 1, p) {
                            let w = choose|w: u64| s <= w < vpn + 1 && ((#[trigger] o.mem.entry(root, w)) matches Some(x) && x.ppn == p);
                            assert(w != vpn);
                            assert(range_owns(o.mem, root, s as int, vpn as int, p));
                        }
                        if range_owns(o.mem, root, s as int, vpn as int, p) {
                            let w = choose|w: u64| s <= w < vpn && ((#[trigger] o.mem.entry(root, w)) matches Some(x) && x.ppn == p);
                            assert(s <= w < vpn + 1);
                        }
                    }
                }
            }
            vpn = vpn + 1;
        }
        t.memory_set.cut_out(s, e);
        proof {
            lemma_cut_areas(o.tasks@[i as int].memory_set.areas@, s, e);
        }
        self.tasks.insert(i, t);
        proof {
            assert(self.tasks@ == o.tasks@.update(i as int, t));
            if o.pages_in_areas() {
                assert forall|v: u64| #[trigger] self.mem.entry(root, v) is Some implies t.memory_set.covers(v) by {
                    assert(o.mem.entry(root, v) is Some);
                    assert(o.tasks@[i as int].memory_set.covers(v));
                }
            }
            lemma_wf_after_current_space_change(o, *self);
            assert forall|j: int| 0 <= j < o.tasks@.len() implies same_but_areas(#[trigger] self.tasks@[j], o.tasks@[j]) by {}
        }
        0
    }
}


/// Every field of a task but its list of children is the same in `a` and `b`.
pub open spec fn same_but_children(a: TaskControlBlock, b: TaskControlBlock) -> bool {
    &&& a.pid == b.pid
    &&& a.parent == b.parent
    &&& a.status == b.status
    &&& a.exit_code == b.exit_code
    &&& a.memory_set.page_table == b.memory_set.page_table
    &&& a.memory_set.areas@ == b.memory_set.areas@
    &&& a.trap_a0 == b.trap_a0
    &&& a.trap_pc == b.trap_pc
    &&& a.trap_sp == b.trap_sp
    &&& a.priority == b.priority
    &&& a.stride == b.stride
    &&& a.heap_bottom == b.heap_bottom
    &&& a.program_brk == b.program_brk
    &&& a.syscall_times@ == b.syscall_times@
}

/// `new` is `old` after the running task reaped its child `c`, found at
/// position `idx` of its children: `c` is gone from the task list and from
/// the children, its page table is released, and nothing else changed.
pub open spec fn reap_spec(old: Kernel, new: Kernel, c: usize, idx: int) -> bool {
    let cur = old.current.unwrap();
    let child_root = old.task(c).memory_set.root();
    &&& new.current == old.current
    &&& new.next_pid == old.next_pid
    &&& new.ready_queue@ == old.ready_queue@
    &&& forall|p: usize| #[trigger] new.has_pid(p) <==> (old.has_pid(p) && p != c)
    &&& forall|p: usize| new.has_pid(p) && p != cur ==> same_task(#[trigger] new.task(p), old.task(p))
    &&& same_but_children(new.cur_task(), old.cur_task())
    &&& new.cur_task().children@ == old.cur_task().children@.remove(idx)
    &&& new.mem.mappings@ == old.mem.mappings@
    &&& forall|r: u64, v: u64| #[trigger] new.mem.entry(r, v) == old.mem.entry(r, v)
    &&& forall|r: u64| #[trigger] new.mem.is_root(r) <==> (old.mem.is_root(r) && r != child_root)
    &&& new.mem.free_frames() == old.mem.free_frames() + 1
    &&& forall|p: u64| #[trigger] new.mem.frames.is_allocated(p) <==> (old.mem.frames.is_allocated(p)
        && p != child_root)
}


/// Position in `old`'s task list of the task at position `j` after the task
/// at position `ti` was removed.
pub open spec fn shifted(j: int, ti: int) -> int {
    if j < ti { j } else { j + 1 }
}

/// The shape of the task list after a reap: the task at `ti` removed, the
/// running task's children shortened by the entry at `idx`.
pub open spec fn reap_shape(o: Kernel, k: Kernel, ti: int, idx: int) -> bool {
    let ci = o.cur_index();
    let ci2 = if ti < ci { ci - 1 } else { ci };
    &&& o.wf()
    &&& o.current is Some
    &&& 0 <= ti < o.tasks@.len()
    &&& ti != ci
    &&& o.tasks@[ti].status == TaskStatus::Zombie
    &&& k.current == o.current
    &&& k.next_pid == o.next_pid
    &&& k.ready_queue@ == o.ready_queue@
    &&& k.tasks@.len() == o.tasks@.len() - 1
    &&& forall|j: int| 0 <= j < k.tasks@.len() && j != ci2 ==> #[trigger] k.tasks@[j] == o.tasks@[shifted(j, ti)]
    &&& same_but_children(k.tasks@[ci2], o.tasks@[ci])
    &&& k.tasks@[ci2].children@ == o.tasks@[ci].children@.remove(idx)
    &&& k.mem.wf()
    &&& k.mem.mappings@ == o.mem.mappings@
    &&& forall|r: u64| #[trigger] k.mem.is_root(r) <==> (o.mem.is_root(r) && r != o.tasks@[ti].memory_set.root())
}

/// After a reap every remaining task still satisfies the kernel's
/// well-formedness.
#[verifier::spinoff_prover]
pub proof fn lemma_reap_tasks(o: Kernel, k: Kernel, ti: int, idx: int)
    requires
        reap_shape(o, k, ti, idx),
    ensures
        o.pages_in_areas() ==> k.pages_in_areas(),
        k.wf(),
        k.cur_index() == (if ti < o.cur_index() { o.cur_index() - 1 } else { o.cur_index() }),
{
    let ci = o.cur_index();
    let ci2 = if ti < ci { ci - 1 } else { ci };
    let n = k.tasks@.len() as int;
    let child_root = o.tasks@[ti].memory_set.root();
    assert(ci == shifted(ci2, ti));
    assert forall|j: int| 0 <= j < n implies {
        let q = shifted(j, ti);
        &&& (#[trigger] k.tasks@[j]).pid == o.tasks@[q].pid
        &&& k.tasks@[j].status == o.tasks@[q].status
        &&& k.tasks@[j].memory_set.root() == o.tasks@[q].memory_set.root()
        &&& k.tasks@[j].memory_set.areas@ == o.tasks@[q].memory_set.areas@
        &&& q != ti
        &&& 0 <= q < o.tasks@.len()
    } by {
        if j != ci2 {
            assert(k.tasks@[j] == o.tasks@[shifted(j, ti)]);
        }
    }
    assert forall|a: int, b: int|
        0 <= a < b < n implies (#[trigger] k.tasks@[a]).pid != (#[trigger] k.tasks@[b]).pid by {
        assert(o.tasks@[shifted(a, ti)].pid != o.tasks@[shifted(b, ti)].pid);
    }
    assert forall|a: int, b: int|
        0 <= a < b < n implies (#[trigger] k.tasks@[a]).memory_set.root()
            != (#[trigger] k.tasks@[b]).memory_set.root() by {
        assert(o.tasks@[shifted(a, ti)].memory_set.root() != o.tasks@[shifted(b, ti)].memory_set.root());
    }
    assert forall|r: u64, v: u64| #[trigger] k.mem.entry(r, v) == o.mem.entry(r, v) by {}
    assert forall|j: int| 0 <= j < n implies {
        let t = #[trigger] k.tasks@[j];
        &&& t.memory_set.wf(&k.mem)
        &&& t.pid < k.next_pid
        &&& t.status == TaskStatus::Zombie ==> forall|v: u64| #[trigger] k.mem.entry(t.memory_set.root(), v) is None
    } by {
        let q = shifted(j, ti);
        let t = k.tasks@[j];
        let ot = o.tasks@[q];
        assert(ot.memory_set.wf(&o.mem));
        assert(ot.memory_set.root() != child_root) by {
            if q < ti {
                assert(o.tasks@[q].memory_set.root() != o.tasks@[ti].memory_set.root());
            } else {
                assert(o.tasks@[ti].memory_set.root() != o.tasks@[q].memory_set.root());
            }
        }
        assert(k.mem.is_root(t.memory_set.root()));
        assert forall|i: int| 0 <= i < t.memory_set.areas@.len() implies {
            let a = #[trigger] t.memory_set.areas@[i];
            a.start_vpn <= a.end_vpn <= VPN_SPACE
        } by {
            assert(t.memory_set.areas@[i] == ot.memory_set.areas@[i]);
        }
        if t.status == TaskStatus::Zombie {
            assert forall|v: u64| #[trigger] k.mem.entry(t.memory_set.root(), v) is None by {
                assert(o.mem.entry(ot.memory_set.root(), v) is None);
            }
        }
    }
        if o.pages_in_areas() {
            assert forall|j: int, v: u64|
            0 <= j < n && (#[trigger] k.mem.entry(k.tasks@[j].memory_set.root(), v)) is Some
                implies k.tasks@[j].memory_set.covers(v) by {
            let q = shifted(j, ti);
            assert(o.mem.entry(o.tasks@[q].memory_set.root(), v) is Some);
            assert(o.tasks@[q].memory_set.covers(v));
            let a = choose|a: int| 0 <= a < o.tasks@[q].memory_set.areas@.len()
                && (#[trigger] o.tasks@[q].memory_set.areas@[a]).spec_contains(v);
            assert(k.tasks@[j].memory_set.areas@[a] == o.tasks@[q].memory_set.areas@[a]);
        }
    }
    assert(k.tasks@[ci2].pid == o.current.unwrap());
    k.lemma_index_of_pid(ci2);
}

/// After a reap the pids present are the old ones but the child's, and every
/// task but the running one is unchanged.
#[verifier::spinoff_prover]
pub proof fn lemma_reap_pids(o: Kernel, k: Kernel, ti: int, idx: int)
    requires
        reap_shape(o, k, ti, idx),
        k.pids_unique(),
    ensures
        forall|p: usize| #[trigger] k.has_pid(p) <==> (o.has_pid(p) && p != o.tasks@[ti].pid),
        forall|p: usize| k.has_pid(p) && p != o.current.unwrap() ==> same_task(#[trigger] k.task(p), o.task(p)),
        o.task(o.tasks@[ti].pid) == o.tasks@[ti],
{
    let ci = o.cur_index();
    let ci2 = if ti < ci { ci - 1 } else { ci };
    let n = k.tasks@.len() as int;
    let c = o.tasks@[ti].pid;
    let cur = o.current.unwrap();
    o.lemma_index_of_pid(ti);
    assert(ci == shifted(ci2, ti));
    assert forall|j: int| 0 <= j < n implies (#[trigger] k.tasks@[j]).pid == o.tasks@[shifted(j, ti)].pid by {
        if j != ci2 {
            assert(k.tasks@[j] == o.tasks@[shifted(j, ti)]);
        }
    }
    assert forall|p: usize| #[trigger] k.has_pid(p) <==> (o.has_pid(p) && p != c) by {
        if k.has_pid(p) {
            let j = choose|j: int| 0 <= j < n && (#[trigger] k.tasks@[j]).pid == p;
            let q = shifted(j, ti);
            assert(o.tasks@[q].pid == p);
            if p == c {
                if q < ti {
                    assert(o.tasks@[q].pid != o.tasks@[ti].pid);
                } else {
                    assert(o.tasks@[ti].pid != o.tasks@[q].pid);
                }
            }
        }
        if o.has_pid(p) && p != c {
            let q = choose|q: int| 0 <= q < o.tasks@.len() && (#[trigger] o.tasks@[q]).pid == p;
            assert(q != ti);
            let j = if q < ti { q } else { q - 1 };
            assert(shifted(j, ti) == q);
            assert(k.tasks@[j].pid == p);
        }
    }
    assert forall|p: usize| k.has_pid(p) && p != cur implies same_task(#[trigger] k.task(p), o.task(p)) by {
        let j = k.index_of_pid(p);
        k.lemma_index_of_pid(j);
        let q = shifted(j, ti);
        assert(o.tasks@[q].pid == p);
        o.lemma_index_of_pid(q);
        if j == ci2 {
            assert(k.tasks@[ci2].pid == cur);
        }
        assert(k.tasks@[j] == o.tasks@[q]);
    }
}

impl Kernel {
    /// Removes the zombie child at position `idx` of the running task's
    /// children, whose task sits at position `ti`; releases its page table
    /// and returns its exit code.
    #[verifier::spinoff_prover]
    #[verifier::rlimit(40)]
    pub fn reap_child(&mut self, idx: usize, ti: usize) -> (code: i32)
        requires
            old(self).wf(),
            old(self).current is Some,
            idx < old(self).cur_task().children@.len(),
            ti < old(self).tasks@.len(),
            old(self).tasks@[ti as int].pid == old(self).cur_task().children@[idx as int],
            old(self).tasks@[ti as int].status == TaskStatus::Zombie,
        ensures
            old(self).pages_in_areas() ==> final(self).pages_in_areas(),
            final(self).wf(),
            code == old(self).tasks@[ti as int].exit_code,
            reap_spec(*old(self), *final(self), old(self).tasks@[ti as int].pid, idx as int),
    {
        let ci = self.current_index();
        let ghost o = *self;
        let ghost c = o.tasks@[ti as int].pid;
        let ghost cur = o.current.unwrap();
        proof {
            o.lemma_index_of_pid(ti as int);
            assert(ti != ci);
        }
        let child = self.tasks.remove(ti);
        let code = child.exit_code;
        let child_root = child.memory_set.page_table.root_ppn;
        let ci2 = if ti < ci { ci - 1 } else { ci };
        let ghost mid = self.tasks@;
        let mut curt = self.tasks.remove(ci2);
        proof { assert(curt == o.tasks@[ci as int]); }
        curt.children.remove(idx);
        self.tasks.insert(ci2, curt);
        proof {
            assert(o.tasks@[ti as int].memory_set.wf(&o.mem));
            assert(forall|v: u64| #[trigger] o.mem.entry(child_root, v) is None);
            o.mem.lemma_table_empty(child_root);
        }
        self.mem.free_root(child_root);
        proof {
            assert forall|j: int| 0 <= j < self.tasks@.len() && j != ci2 implies #[trigger] self.tasks@[j]
                == o.tasks@[if j < ti { j } else { j + 1 }] by {
                assert(self.tasks@[j] == mid[j]);
            }
            lemma_reap_tasks(o, *self, ti as int, idx as int);
            lemma_reap_pids(o, *self, ti as int, idx as int);
            assert forall|r: u64, v: u64| #[trigger] self.mem.entry(r, v) == o.mem.entry(r, v) by {}
        }
        code
    }
}


/// The two tasks have the same pid, address space and children.
pub open spec fn same_identity(a: TaskControlBlock, b: TaskControlBlock) -> bool {
    &&& a.pid == b.pid
    &&& a.memory_set.page_table == b.memory_set.page_table
    &&& a.memory_set.areas@ == b.memory_set.areas@
}

/// The kernel stays well formed when only non-memory fields of the task at
/// position `i` changed and that task did not become a zombie.
pub proof fn lemma_wf_after_fields_change(old: Kernel, new: Kernel, i: int)
    requires
        old.wf(),
        0 <= i < old.tasks@.len(),
        new.mem == old.mem,
        new.next_pid == old.next_pid,
        new.tasks@.len() == old.tasks@.len(),
        forall|j: int| 0 <= j < old.tasks@.len() && j != i ==> #[trigger] new.tasks@[j] == old.tasks@[j],
        same_identity(new.tasks@[i], old.tasks@[i]),
        new.tasks@[i].status == TaskStatus::Zombie ==> old.tasks@[i].status == TaskStatus::Zombie,
        new.current is Some ==> (new.current == old.current && (old.cur_index() == i ==> new.tasks@[i].status != TaskStatus::Zombie))
            || (new.current == Some(new.tasks@[i].pid) && new.tasks@[i].status != TaskStatus::Zombie),
    ensures
        old.pages_in_areas() ==> new.pages_in_areas(),
        new.wf(),
        forall|p: usize| #[trigger] new.has_pid(p) == old.has_pid(p),
        forall|p: usize| old.has_pid(p) ==> #[trigger] new.index_of_pid(p) == old.index_of_pid(p),
{
    assert forall|a: int, b: int|
        0 <= a < b < new.tasks@.len() implies (#[trigger] new.tasks@[a]).pid != (#[trigger] new.tasks@[b]).pid by {
        assert(old.tasks@[a].pid != old.tasks@[b].pid);
    }
    assert forall|j: int| 0 <= j < new.tasks@.len() implies {
        let t = #[trigger] new.tasks@[j];
        &&& t.memory_set.wf(&new.mem)
        &&& t.pid < new.next_pid
        &&& t.status == TaskStatus::Zombie ==> forall|v: u64| #[trigger] new.mem.entry(t.memory_set.root(), v) is None
    } by {
        let t = new.tasks@[j];
        let ot = old.tasks@[j];
        assert(ot.memory_set.wf(&old.mem));
        assert forall|k: int| 0 <= k < t.memory_set.areas@.len() implies {
            let a = #[trigger] t.memory_set.areas@[k];
            a.start_vpn <= a.end_vpn <= VPN_SPACE
        } by {
            assert(t.memory_set.areas@[k] == ot.memory_set.areas@[k]);
        }
    }
    assert forall|a: int, b: int|
        0 <= a < b < new.tasks@.len() implies (#[trigger] new.tasks@[a]).memory_set.root()
            != (#[trigger] new.tasks@[b]).memory_set.root() by {
        assert(old.tasks@[a].memory_set.root() != old.tasks@[b].memory_set.root());
    }
        if old.pages_in_areas() {
            assert forall|j: int, v: u64|
            0 <= j < new.tasks@.len() && (#[trigger] new.mem.entry(new.tasks@[j].memory_set.root(), v)) is Some
                implies new.tasks@[j].memory_set.covers(v) by {
            assert(old.tasks@[j].memory_set.covers(v));
            let a = choose|a: int| 0 <= a < old.tasks@[j].memory_set.areas@.len()
                && (#[trigger] old.tasks@[j].memory_set.areas@[a]).spec_contains(v);
            assert(new.tasks@[j].memory_set.areas@[a] == old.tasks@[j].memory_set.areas@[a]);
        }
    }
    assert forall|p: usize| #[trigger] new.has_pid(p) == old.has_pid(p) by {
        if new.has_pid(p) {
            let j = choose|j: int| 0 <= j < new.tasks@.len() && (#[trigger] new.tasks@[j]).pid == p;
            assert(old.tasks@[j].pid == p);
        }
        if old.has_pid(p) {
            let j = choose|j: int| 0 <= j < old.tasks@.len() && (#[trigger] old.tasks@[j]).pid == p;
            assert(new.tasks@[j].pid == p);
        }
    }
    assert forall|p: usize| old.has_pid(p) implies #[trigger] new.index_of_pid(p) == old.index_of_pid(p) by {
        let j = old.index_of_pid(p);
        old.lemma_index_of_pid(j);
        assert(new.tasks@[j].pid == p);
        new.lemma_index_of_pid(j);
    }
    if new.current is Some {
        let p = new.current.unwrap();
        if new.current == old.current {
            assert(old.has_pid(p));
            let j = old.index_of_pid(p);
            assert(new.index_of_pid(p) == j);
        } else {
            new.lemma_index_of_pid(i);
        }
    }
}

impl Kernel {
    /// Pid of the running task.
    pub fn current_pid(&self) -> (r: usize)
        requires
            self.current is Some,
        ensures
            r == self.current.unwrap(),
    {
        match self.current {
            Some(p) => p,
            None => { assert(false); 0 },
        }
    }

    /// Sets the scheduling priority of the running task.
    pub fn set_current_priority(&mut self, prio: u64)
        requires
            old(self).wf(),
            old(self).current is Some,
        ensures
            old(self).pages_in_areas() ==> final(self).pages_in_areas(),
            final(self).wf(),
            final(self).mem == old(self).mem,
            final(self).current == old(self).current,
            final(self).next_pid == old(self).next_pid,
            final(self).ready_queue@ == old(self).ready_queue@,
            final(self).tasks@ == old(self).tasks@.update(old(self).cur_index(), final(self).cur_task()),
            final(self).cur_index() == old(self).cur_index(),
            final(self).cur_task().priority == prio,
            same_task(final(self).cur_task(), TaskControlBlock { priority: prio, ..old(self).cur_task() }),
    {
        let i = self.current_index();
        let ghost o = *self;
        let mut t = self.tasks.remove(i);
        t.priority = prio;
        self.tasks.insert(i, t);
        proof {
            assert(self.tasks@ == o.tasks@.update(i as int, t));
            lemma_wf_after_fields_change(o, *self, i as int);
        }
    }

    /// Puts the running task back among the ready ones; no task runs
    /// afterwards until the scheduler picks one.
    pub fn suspend_current(&mut self)
        requires
            old(self).wf(),
            old(self).current is Some,
        ensures
            old(self).pages_in_areas() ==> final(self).pages_in_areas(),
            final(self).wf(),
            final(self).mem == old(self).mem,
            final(self).current is None,
            final(self).next_pid == old(self).next_pid,
            final(self).ready_queue@ == old(self).ready_queue@.push(old(self).current.unwrap()),
            final(self).tasks@ == old(self).tasks@.update(old(self).cur_index(), final(self).tasks@[old(self).cur_index()]),
            final(self).tasks@[old(self).cur_index()].status == TaskStatus::Ready,
            same_task(final(self).tasks@[old(self).cur_index()], TaskControlBlock {
                status: TaskStatus::Ready,
                ..old(self).cur_task()
            }),
    {
        let i = self.current_index();
        let pid = self.current_pid();
        let ghost o = *self;
        let mut t = self.tasks.remove(i);
        t.status = TaskStatus::Ready;
        self.tasks.insert(i, t);
        self.current = None;
        self.ready_queue.push(pid);
        proof {
            assert(self.tasks@ == o.tasks@.update(i as int, t));
            lemma_wf_after_fields_change(o, *self, i as int);
        }
    }
}


/// The break that `sbrk(size)` asks the task `t` for.
pub open spec fn brk_target(t: TaskControlBlock, size: i32) -> int {
    (t.program_brk as i64) + size
}

/// The break asked for lies at or above the bottom of the heap.
pub open spec fn brk_ok(t: TaskControlBlock, size: i32) -> bool {
    brk_target(t, size) >= (t.heap_bottom as i64)
}

/// `change_program_brk(size)` can run on the task `t` without failing an
/// assertion: the new break fits a signed word, and when it is granted the
/// heap area can be cut or grown to it.
pub open spec fn brk_change_safe(mem: PhysMemory, t: TaskControlBlock, size: i32) -> bool {
    let target = brk_target(t, size);
    let new_end = spec_ceil(target as u64);
    &&& i64::MIN <= target <= i64::MAX
    &&& brk_ok(t, size) ==> forall|i: int| crate::memory_set::first_area_at(t.memory_set.areas@, spec_floor(t.heap_bottom), i) ==> {
        let a = t.memory_set.areas@[i];
        if size < 0 {
            &&& a.start_vpn <= new_end <= a.end_vpn
            &&& forall|v: u64| new_end <= v < a.end_vpn ==> mem.is_mapped(t.memory_set.root(), v)
        } else {
            &&& a.end_vpn <= new_end <= VPN_SPACE
            &&& mem.free_frames() >= new_end - a.end_vpn
            &&& forall|v: u64| a.end_vpn <= v < new_end ==> !mem.is_mapped(t.memory_set.root(), v)
        }
    }
}


/// `sbrk(size)` is granted to the running task of `k`: the new break is not
/// below the heap bottom and the task has an area starting at the heap bottom.
pub open spec fn sbrk_granted(k: Kernel, size: i32) -> bool {
    let t = k.cur_task();
    brk_ok(t, size) && crate::memory_set::has_area_at(t.memory_set.areas@, spec_floor(t.heap_bottom))
}

/// What `change_program_brk(size)` does to the kernel `old`, giving `new`
/// and the result `r`: `None` with nothing changed when the request is not
/// granted; otherwise the old break, the break moved by `size`, and the heap
/// area's end moved to the page boundary at or above the new break.
pub open spec fn brk_spec(old: Kernel, new: Kernel, size: i32, r: Option<u64>) -> bool {
    let t = old.cur_task();
    let target = brk_target(t, size);
    if !brk_ok(t, size) || !crate::memory_set::has_area_at(t.memory_set.areas@, spec_floor(t.heap_bottom)) {
        r is None && new == old
    } else {
        &&& r == Some(t.program_brk)
        &&& new.current == old.current
        &&& new.next_pid == old.next_pid
        &&& new.ready_queue@ == old.ready_queue@
        &&& new.tasks@.len() == old.tasks@.len()
        &&& new.cur_index() == old.cur_index()
        &&& forall|j: int| 0 <= j < old.tasks@.len() && j != old.cur_index() ==>
            #[trigger] new.tasks@[j] == old.tasks@[j]
        &&& new.cur_task().program_brk == target as u64
        &&& same_but_areas(new.cur_task(), TaskControlBlock { program_brk: target as u64, ..t })
        &&& new.mem.roots@ == old.mem.roots@
        &&& exists|i: int| crate::memory_set::first_area_at(t.memory_set.areas@, spec_floor(t.heap_bottom), i) && {
            let a = t.memory_set.areas@[i];
            let e = spec_ceil(target as u64);
            &&& new.cur_task().memory_set.areas@ == t.memory_set.areas@.update(i, MapArea { end_vpn: e as u64, ..a })
            &&& size < 0 ==> {
                &&& forall|v: u64| e <= v < a.end_vpn ==> #[trigger] new.mem.entry(t.memory_set.root(), v) is None
                &&& forall|rt: u64, v: u64| !(rt == t.memory_set.root() && e <= v < a.end_vpn) ==>
                    #[trigger] new.mem.entry(rt, v) == old.mem.entry(rt, v)
                &&& new.mem.free_frames() == old.mem.free_frames() + (a.end_vpn - e)
            }
            &&& size >= 0 ==> {
                &&& forall|v: u64| a.end_vpn <= v < e ==> (#[trigger] new.mem.entry(t.memory_set.root(), v) matches Some(x)
                    && x.flags == entry_flags(a.map_perm))
                &&& forall|rt: u64, v: u64| !(rt == t.memory_set.root() && a.end_vpn <= v < e) ==>
                    #[trigger] new.mem.entry(rt, v) == old.mem.entry(rt, v)
                &&& new.mem.free_frames() + (e - a.end_vpn) == old.mem.free_frames()
            }
        }
    }
}

impl Kernel {
    /// Moves the running task's program break by `size` bytes. Returns the
    /// old break, or `None` (changing nothing) when the new break would lie
    /// below the bottom of the heap or the task has no heap area.
    pub fn change_program_brk(&mut self, size: i32) -> (r: Option<u64>)
        requires
            old(self).wf(),
            old(self).current is Some,
            brk_change_safe(old(self).mem, old(self).cur_task(), size),
        ensures
            old(self).pages_in_areas() ==> final(self).pages_in_areas(),
            final(self).wf(),
            brk_spec(*old(self), *final(self), size, r),
    {
        let i = self.current_index();
        let heap_bottom = self.tasks[i].heap_bottom;
        let old_break = self.tasks[i].program_brk;
        let new_brk: i64 = (#[verifier::truncate] (old_break as i64)) + (size as i64);
        if new_brk < #[verifier::truncate] (heap_bottom as i64) {
            return None;
        }
        if self.tasks[i].memory_set.find_area_at(floor(heap_bottom)).is_none() {
            return None;
        }
        let ghost o = *self;
        let mut t = self.tasks.remove(i);
        proof { assert(t == o.tasks@[i as int]); }
        let target = #[verifier::truncate] (new_brk as u64);
        if size < 0 {
            t.memory_set.shrink_to(&mut self.mem, heap_bottom, target);
        } else {
            t.memory_set.append_to(&mut self.mem, heap_bottom, target);
        }
        t.program_brk = target;
        self.tasks.insert(i, t);
        proof {
            assert(self.tasks@ == o.tasks@.update(i as int, t));
            let ot = o.tasks@[i as int];
            let k = choose|k: int| crate::memory_set::first_area_at(ot.memory_set.areas@, spec_floor(heap_bottom), k)
                && t.memory_set.areas@ == ot.memory_set.areas@.update(k,
                    MapArea { end_vpn: spec_ceil(target) as u64, ..ot.memory_set.areas@[k] });
            assert(crate::memory_set::first_area_at(ot.memory_set.areas@, spec_floor(heap_bottom), k));
            if o.pages_in_areas() {
                crate::memory_set::lemma_resize_keeps_cover(ot.memory_set.areas@, t.memory_set.areas@, k,
                    spec_ceil(target) as u64, o.mem, self.mem, o.cur_root());
            }
            lemma_wf_after_current_space_change(o, *self);
        }
        Some(old_break)
    }
}

/// The child that `fork` makes of the task `parent`: the pid `pid`, a copy
/// of the parent's areas, a fresh place in the process tree, the parent's
/// saved registers but with `a0` as the return register, the parent's heap,
/// and the default scheduling parameters.
pub open spec fn forked_child(parent: TaskControlBlock, pid: usize, a0: u64, child: TaskControlBlock) -> bool {
    &&& child.pid == pid
    &&& child.parent == Some(parent.pid)
    &&& child.children@ == Seq::<usize>::empty()
    &&& child.status == TaskStatus::Ready
    &&& child.exit_code == 0
    &&& child.memory_set.areas@ == parent.memory_set.areas@
    &&& child.trap_a0 == a0
    &&& child.trap_pc == parent.trap_pc
    &&& child.trap_sp == parent.trap_sp
    &&& child.priority == DEFAULT_PRIORITY
    &&& child.stride == 0
    &&& child.heap_bottom == parent.heap_bottom
    &&& child.program_brk == parent.program_brk
    &&& child.syscall_times@ == Seq::<u64>::empty()
}

/// What creating a child of the running task does to the kernel `old`,
/// giving `new`: the child is appended with the next pid, the return
/// register `a0`, and a copy of the parent's address space in a page table of
/// its own; the parent lists it as its last child; the ready queue becomes
/// `queue`. No other task and no other page table changes.
pub open spec fn fork_effect(old: Kernel, new: Kernel, a0: u64, queue: Seq<usize>) -> bool {
    let ci = old.cur_index();
    let parent = old.cur_task();
    let n = old.tasks@.len() as int;
    let child = new.tasks@[n];
    &&& new.current == old.current
    &&& new.next_pid == old.next_pid + 1
    &&& new.ready_queue@ == queue
    &&& new.tasks@.len() == n + 1
    &&& forall|j: int| 0 <= j < n && j != ci ==> #[trigger] new.tasks@[j] == old.tasks@[j]
    &&& same_but_children(new.tasks@[ci], parent)
    &&& new.tasks@[ci].children@ == parent.children@.push(old.next_pid)
    &&& forked_child(parent, old.next_pid, a0, child)
    &&& !old.mem.is_root(child.memory_set.root())
    &&& new.mem.roots@ == old.mem.roots@.push(child.memory_set.root())
    &&& forall|v: u64| #[trigger] new.mem.is_mapped(child.memory_set.root(), v) <==> parent.memory_set.covers(v)
    &&& forall|k: int, v: u64| 0 <= k < parent.memory_set.areas@.len() && (#[trigger] parent.memory_set.areas@[k]).spec_contains(v)
        ==> ((#[trigger] new.mem.entry(child.memory_set.root(), v)) matches Some(e)
            && e.flags == entry_flags(parent.memory_set.areas@[k].map_perm))
    &&& forall|rt: u64, v: u64| rt != child.memory_set.root() ==> #[trigger] new.mem.entry(rt, v) == old.mem.entry(rt, v)
    &&& new.mem.free_frames() + 1 + total_pages(parent.memory_set.areas@) == old.mem.free_frames()
}

impl Kernel {
    /// Creates a child of the running task with a copy of its address space
    /// and returns the child's position in the task list.
    pub fn fork_current(&mut self) -> (r: usize)
        requires
            old(self).wf(),
            old(self).current is Some,
            old(self).next_pid < usize::MAX,
            areas_disjoint(old(self).cur_task().memory_set.areas@),
            old(self).mem.free_frames() >= 1 + total_pages(old(self).cur_task().memory_set.areas@),
        ensures
            old(self).pages_in_areas() ==> final(self).pages_in_areas(),
            final(self).wf(),
            fork_effect(*old(self), *final(self), old(self).cur_task().trap_a0, old(self).ready_queue@),
            r == old(self).tasks@.len(),
            final(self).cur_index() == old(self).cur_index(),
    {
        let ci = self.current_index();
        let ghost o = *self;
        proof { assert(o.tasks@[ci as int].memory_set.wf(&o.mem)); }
        let ms = MemorySet::from_existed_user(&self.tasks[ci].memory_set, &mut self.mem);
        let pid = self.next_pid;
        self.next_pid = self.next_pid + 1;
        let mut parent = self.tasks.remove(ci);
        parent.children.push(pid);
        let child = TaskControlBlock {
            pid,
            parent: Some(parent.pid),
            children: Vec::new(),
            status: TaskStatus::Ready,
            exit_code: 0,
            memory_set: ms,
            trap_a0: parent.trap_a0,
            trap_pc: parent.trap_pc,
            trap_sp: parent.trap_sp,
            priority: DEFAULT_PRIORITY,
            stride: 0,
            heap_bottom: parent.heap_bottom,
            program_brk: parent.program_brk,
            syscall_times: Vec::new(),
        };
        self.tasks.insert(ci, parent);
        let r = self.tasks.len();
        self.tasks.push(child);
        proof {
            assert forall|q: int| 0 <= q < child_areas_len(*self) implies {
                let a = #[trigger] self.tasks@[r as int].memory_set.areas@[q];
                a.start_vpn <= a.end_vpn <= VPN_SPACE
            } by {
                assert(o.tasks@[ci as int].memory_set.areas@[q] == self.tasks@[r as int].memory_set.areas@[q]);
            }
            lemma_wf_after_new_child(o, *self);
        }
        r
    }
}

/// Number of areas of the last task.
spec fn child_areas_len(k: Kernel) -> int {
    k.tasks@.last().memory_set.areas@.len() as int
}

/// The kernel stays well formed when a ready child with a fresh pid and a
/// page table of its own is appended and the running task gains it as a
/// child.
#[verifier::spinoff_prover]
pub proof fn lemma_wf_after_new_child(o: Kernel, k: Kernel)
    requires
        o.wf(),
        o.current is Some,
        k.mem.wf(),
        k.current == o.current,
        k.next_pid == o.next_pid + 1,
        k.tasks@.len() == o.tasks@.len() + 1,
        forall|j: int| 0 <= j < o.tasks@.len() && j != o.cur_index() ==> #[trigger] k.tasks@[j] == o.tasks@[j],
        same_but_children(k.tasks@[o.cur_index()], o.cur_task()),
        k.tasks@[o.tasks@.len() as int].pid == o.next_pid,
        k.tasks@[o.tasks@.len() as int].status == TaskStatus::Ready,
        k.tasks@[o.tasks@.len() as int].memory_set.wf(&k.mem),
        !o.mem.is_root(k.tasks@[o.tasks@.len() as int].memory_set.root()),
        k.mem.roots@ == o.mem.roots@.push(k.tasks@[o.tasks@.len() as int].memory_set.root()),
        forall|v: u64| #[trigger] k.mem.is_mapped(k.tasks@[o.tasks@.len() as int].memory_set.root(), v)
            <==> k.tasks@[o.tasks@.len() as int].memory_set.covers(v),
        forall|rt: u64, v: u64| rt != k.tasks@[o.tasks@.len() as int].memory_set.root() ==>
            #[trigger] k.mem.entry(rt, v) == o.mem.entry(rt, v),
    ensures
        o.pages_in_areas() ==> k.pages_in_areas(),
        k.wf(),
        k.cur_index() == o.cur_index(),
{
    let n = o.tasks@.len() as int;
    let ci = o.cur_index();
    let child = k.tasks@[n];
    let croot = child.memory_set.root();
    assert forall|j: int| 0 <= j < n implies {
        &&& (#[trigger] k.tasks@[j]).pid == o.tasks@[j].pid
        &&& k.tasks@[j].status == o.tasks@[j].status
        &&& k.tasks@[j].memory_set.root() == o.tasks@[j].memory_set.root()
        &&& k.tasks@[j].memory_set.areas@ == o.tasks@[j].memory_set.areas@
    } by {
        if j != ci {
            assert(k.tasks@[j] == o.tasks@[j]);
        }
    }
    assert forall|j: int| 0 <= j < n implies o.mem.is_root(#[trigger] o.tasks@[j].memory_set.root()) by {
        assert(o.tasks@[j].memory_set.wf(&o.mem));
    }
    assert forall|r: u64| o.mem.is_root(r) implies #[trigger] k.mem.is_root(r) by {
        let q = choose|q: int| 0 <= q < o.mem.roots@.len() && o.mem.roots@[q] == r;
        assert(k.mem.roots@[q] == r);
    }
    assert(k.mem.is_root(croot)) by {
        assert(k.mem.roots@[o.mem.roots@.len() as int] == croot);
    }
    assert forall|a: int, b: int|
        0 <= a < b < k.tasks@.len() implies (#[trigger] k.tasks@[a]).pid != (#[trigger] k.tasks@[b]).pid by {
        if b < n {
            assert(o.tasks@[a].pid != o.tasks@[b].pid);
        } else {
            assert(o.tasks@[a].pid < o.next_pid);
        }
    }
    assert forall|a: int, b: int|
        0 <= a < b < k.tasks@.len() implies (#[trigger] k.tasks@[a]).memory_set.root()
            != (#[trigger] k.tasks@[b]).memory_set.root() by {
        if b < n {
            assert(o.tasks@[a].memory_set.root() != o.tasks@[b].memory_set.root());
        } else {
            assert(o.mem.is_root(o.tasks@[a].memory_set.root()));
        }
    }
    assert forall|j: int| 0 <= j < k.tasks@.len() implies {
        let t = #[trigger] k.tasks@[j];
        &&& t.memory_set.wf(&k.mem)
        &&& t.pid < k.next_pid
        &&& t.status == TaskStatus::Zombie ==> forall|v: u64| #[trigger] k.mem.entry(t.memory_set.root(), v) is None
    } by {
        let t = k.tasks@[j];
        if j < n {
            let src = o.tasks@[j];
            assert(src.memory_set.wf(&o.mem));
            assert forall|q: int| 0 <= q < t.memory_set.areas@.len() implies {
                let a = #[trigger] t.memory_set.areas@[q];
                a.start_vpn <= a.end_vpn <= VPN_SPACE
            } by {
                assert(t.memory_set.areas@[q] == src.memory_set.areas@[q]);
            }
            assert(o.tasks@[j].pid < o.next_pid);
            if t.status == TaskStatus::Zombie {
                assert(o.mem.is_root(t.memory_set.root()));
                assert forall|v: u64| #[trigger] k.mem.entry(t.memory_set.root(), v) is None by {
                    assert(o.mem.entry(o.tasks@[j].memory_set.root(), v) is None);
                }
            }
        }
    }
        if o.pages_in_areas() {
            assert forall|j: int, v: u64|
            0 <= j < k.tasks@.len() && (#[trigger] k.mem.entry(k.tasks@[j].memory_set.root(), v)) is Some
                implies k.tasks@[j].memory_set.covers(v) by {
            let t = k.tasks@[j];
            if j < n {
                assert(o.mem.is_root(t.memory_set.root()));
                assert(o.mem.entry(o.tasks@[j].memory_set.root(), v) is Some);
                assert(o.tasks@[j].memory_set.covers(v));
                let a = choose|a: int| 0 <= a < o.tasks@[j].memory_set.areas@.len()
                    && (#[trigger] o.tasks@[j].memory_set.areas@[a]).spec_contains(v);
                assert(t.memory_set.areas@[a] == o.tasks@[j].memory_set.areas@[a]);
            } else {
                assert(k.mem.is_mapped(croot, v));
            }
        }
    }
    assert(k.tasks@[ci].pid == o.current.unwrap());
    k.lemma_index_of_pid(ci);
}


impl Kernel {
    /// Sets the saved return register `a0` of the task at position `i`.
    pub fn set_trap_a0(&mut self, i: usize, value: u64)
        requires
            old(self).wf(),
            i < old(self).tasks@.len(),
        ensures
            old(self).pages_in_areas() ==> final(self).pages_in_areas(),
            final(self).wf(),
            final(self).mem == old(self).mem,
            final(self).current == old(self).current,
            final(self).next_pid == old(self).next_pid,
            final(self).ready_queue@ == old(self).ready_queue@,
            final(self).tasks@.len() == old(self).tasks@.len(),
            forall|j: int| 0 <= j < old(self).tasks@.len() && j != i ==> #[trigger] final(self).tasks@[j] == old(self).tasks@[j],
            same_task(final(self).tasks@[i as int], TaskControlBlock { trap_a0: value, ..old(self).tasks@[i as int] }),
            old(self).current is Some ==> final(self).cur_index() == old(self).cur_index(),
    {
        let ghost o = *self;
        let mut t = self.tasks.remove(i);
        t.trap_a0 = value;
        self.tasks.insert(i, t);
        proof {
            assert(self.tasks@ == o.tasks@.update(i as int, t));
            lemma_wf_after_fields_change(o, *self, i as int);
        }
    }

    /// Puts the task with pid `pid` at the back of the ready queue.
    pub fn add_task(&mut self, pid: usize)
        requires
            old(self).wf(),
        ensures
            old(self).pages_in_areas() ==> final(self).pages_in_areas(),
            final(self).wf(),
            final(self).ready_queue@ == old(self).ready_queue@.push(pid),
            final(self).mem == old(self).mem,
            final(self).tasks == old(self).tasks,
            final(self).current == old(self).current,
            final(self).next_pid == old(self).next_pid,
    {
        self.ready_queue.push(pid);
    }
}


/// The task that loading the application `app` under the pid `pid` makes:
/// the application's areas, registers set to start at its entry point on top
/// of its stack, an empty heap there, no children, and the default
/// scheduling parameters.
pub open spec fn loaded_task(app: &AppImage, pid: usize, t: TaskControlBlock) -> bool {
    &&& t.pid == pid
    &&& t.children@ == Seq::<usize>::empty()
    &&& t.status == TaskStatus::Ready
    &&& t.exit_code == 0
    &&& t.memory_set.areas@ == app_areas(app)
    &&& t.trap_a0 == 0
    &&& t.trap_pc == app.entry
    &&& t.trap_sp == app_stack_top(app)
    &&& t.priority == DEFAULT_PRIORITY
    &&& t.stride == 0
    &&& t.heap_bottom == app_stack_top(app)
    &&& t.program_brk == app_stack_top(app)
    &&& t.syscall_times@ == Seq::<u64>::empty()
}

/// What spawning the application `app` as a child of the running task does
/// to the kernel `old`, giving `new`: the loaded child is appended with the
/// next pid and a page table of its own, queued as ready, and listed as the
/// parent's last child. No other task and no other page table changes.
pub open spec fn spawn_effect(old: Kernel, new: Kernel, app: &AppImage) -> bool {
    let ci = old.cur_index();
    let parent = old.cur_task();
    let n = old.tasks@.len() as int;
    let child = new.tasks@[n];
    &&& new.current == old.current
    &&& new.next_pid == old.next_pid + 1
    &&& new.ready_queue@ == old.ready_queue@.push(old.next_pid)
    &&& new.tasks@.len() == n + 1
    &&& forall|j: int| 0 <= j < n && j != ci ==> #[trigger] new.tasks@[j] == old.tasks@[j]
    &&& same_but_children(new.tasks@[ci], parent)
    &&& new.tasks@[ci].children@ == parent.children@.push(old.next_pid)
    &&& loaded_task(app, old.next_pid, child)
    &&& child.parent == Some(parent.pid)
    &&& !old.mem.is_root(child.memory_set.root())
    &&& new.mem.roots@ == old.mem.roots@.push(child.memory_set.root())
    &&& forall|v: u64| #[trigger] new.mem.is_mapped(child.memory_set.root(), v) <==> areas_cover(app_areas(app), v)
    &&& forall|k: int, v: u64| 0 <= k < app_areas(app).len() && (#[trigger] app_areas(app)[k]).spec_contains(v)
        ==> ((#[trigger] new.mem.entry(child.memory_set.root(), v)) matches Some(e)
            && e.flags == entry_flags(app_areas(app)[k].map_perm))
    &&& forall|rt: u64, v: u64| rt != child.memory_set.root() ==> #[trigger] new.mem.entry(rt, v) == old.mem.entry(rt, v)
    &&& new.mem.free_frames() + app_frames(app) == old.mem.free_frames()
    &&& forall|p: u64| #[trigger] new.mem.frames.is_allocated(p) <==> (old.mem.frames.is_allocated(p)
        || p == child.memory_set.root() || new.mem.owns_data(child.memory_set.root(), p))
}

impl Kernel {
    /// Loads the application at position `ai` as a new child of the running
    /// task, queues it as ready, and returns its pid.
    pub fn spawn_child(&mut self, ai: usize) -> (pid: usize)
        requires
            old(self).wf(),
            old(self).current is Some,
            old(self).next_pid < usize::MAX,
            ai < old(self).apps@.len(),
            app_fits(&old(self).apps@[ai as int]),
            old(self).mem.free_frames() >= app_frames(&old(self).apps@[ai as int]),
        ensures
            old(self).pages_in_areas() ==> final(self).pages_in_areas(),
            final(self).wf(),
            spawn_effect(*old(self), *final(self), &old(self).apps@[ai as int]),
            pid == old(self).next_pid,
            final(self).cur_index() == old(self).cur_index(),
            final(self).apps@ == old(self).apps@,
    {
        let ci = self.current_index();
        let ghost o = *self;
        let (ms, user_sp, entry) = MemorySet::from_app(&self.apps[ai], &mut self.mem);
        let pid = self.next_pid;
        self.next_pid = self.next_pid + 1;
        let mut parent = self.tasks.remove(ci);
        parent.children.push(pid);
        let child = TaskControlBlock {
            pid,
            parent: Some(parent.pid),
            children: Vec::new(),
            status: TaskStatus::Ready,
            exit_code: 0,
            memory_set: ms,
            trap_a0: 0,
            trap_pc: entry,
            trap_sp: user_sp,
            priority: DEFAULT_PRIORITY,
            stride: 0,
            heap_bottom: user_sp,
            program_brk: user_sp,
            syscall_times: Vec::new(),
        };
        self.tasks.insert(ci, parent);
        self.tasks.push(child);
        self.ready_queue.push(pid);
        proof {
            lemma_wf_after_new_child(o, *self);
        }
        pid
    }
}


/// The kernel stays well formed when the running task's address space is
/// replaced by one in a fresh page table and its old page table released.
#[verifier::spinoff_prover]
pub proof fn lemma_wf_after_space_replace(o: Kernel, k: Kernel)
    requires
        o.wf(),
        o.current is Some,
        k.mem.wf(),
        k.current == o.current,
        k.next_pid == o.next_pid,
        k.tasks@.len() == o.tasks@.len(),
        forall|j: int| 0 <= j < o.tasks@.len() && j != o.cur_index() ==> #[trigger] k.tasks@[j] == o.tasks@[j],
        k.tasks@[o.cur_index()].pid == o.cur_task().pid,
        k.tasks@[o.cur_index()].status == o.cur_task().status,
        k.tasks@[o.cur_index()].memory_set.wf(&k.mem),
        !o.mem.is_root(k.tasks@[o.cur_index()].memory_set.root()),
        forall|r: u64| #[trigger] k.mem.is_root(r) <==> ((o.mem.is_root(r) && r != o.cur_root())
            || r == k.tasks@[o.cur_index()].memory_set.root()),
        forall|r: u64, v: u64| r != o.cur_root() && r != k.tasks@[o.cur_index()].memory_set.root()
            ==> #[trigger] k.mem.entry(r, v) == o.mem.entry(r, v),
        forall|v: u64| #[trigger] k.mem.is_mapped(k.tasks@[o.cur_index()].memory_set.root(), v)
            <==> k.tasks@[o.cur_index()].memory_set.covers(v),
    ensures
        o.pages_in_areas() ==> k.pages_in_areas(),
        k.wf(),
        k.cur_index() == o.cur_index(),
{
    let ci = o.cur_index();
    let nr = k.tasks@[ci].memory_set.root();
    let or = o.cur_root();
    assert forall|j: int| 0 <= j < o.tasks@.len() && j != ci implies o.mem.is_root(#[trigger] o.tasks@[j].memory_set.root())
        && o.tasks@[j].memory_set.root() != or by {
        assert(o.tasks@[j].memory_set.wf(&o.mem));
        if j < ci {
            assert(o.tasks@[j].memory_set.root() != o.tasks@[ci].memory_set.root());
        } else {
            assert(o.tasks@[ci].memory_set.root() != o.tasks@[j].memory_set.root());
        }
    }
    assert forall|a: int, b: int|
        0 <= a < b < k.tasks@.len() implies (#[trigger] k.tasks@[a]).pid != (#[trigger] k.tasks@[b]).pid by {
        assert(o.tasks@[a].pid != o.tasks@[b].pid);
    }
    assert forall|a: int, b: int|
        0 <= a < b < k.tasks@.len() implies (#[trigger] k.tasks@[a]).memory_set.root()
            != (#[trigger] k.tasks@[b]).memory_set.root() by {
        if a != ci && b != ci {
            assert(o.tasks@[a].memory_set.root() != o.tasks@[b].memory_set.root());
        } else if a == ci {
            assert(o.mem.is_root(o.tasks@[b].memory_set.root()));
        } else {
            assert(o.mem.is_root(o.tasks@[a].memory_set.root()));
        }
    }
    assert forall|j: int| 0 <= j < k.tasks@.len() implies {
        let t = #[trigger] k.tasks@[j];
        &&& t.memory_set.wf(&k.mem)
        &&& t.pid < k.next_pid
        &&& t.status == TaskStatus::Zombie ==> forall|v: u64| #[trigger] k.mem.entry(t.memory_set.root(), v) is None
    } by {
        if j != ci {
            let t = k.tasks@[j];
            assert(t == o.tasks@[j]);
            assert(o.tasks@[j].memory_set.wf(&o.mem));
            assert(o.mem.is_root(t.memory_set.root()) && t.memory_set.root() != or);
            assert(t.memory_set.root() != nr);
            if t.status == TaskStatus::Zombie {
                assert forall|v: u64| #[trigger] k.mem.entry(t.memory_set.root(), v) is None by {
                    assert(o.mem.entry(o.tasks@[j].memory_set.root(), v) is None);
                }
            }
        } else {
            assert(o.tasks@[ci].pid < o.next_pid);
            assert(o.tasks@[ci].status != TaskStatus::Zombie);
        }
    }
        if o.pages_in_areas() {
            assert forall|j: int, v: u64|
            0 <= j < k.tasks@.len() && (#[trigger] k.mem.entry(k.tasks@[j].memory_set.root(), v)) is Some
                implies k.tasks@[j].memory_set.covers(v) by {
            if j != ci {
                assert(o.mem.is_root(o.tasks@[j].memory_set.root()) && o.tasks@[j].memory_set.root() != or);
                assert(o.tasks@[j].memory_set.root() != nr);
                assert(o.mem.entry(o.tasks@[j].memory_set.root(), v) is Some);
            } else {
                assert(k.mem.is_mapped(nr, v));
            }
        }
    }
    assert(k.tasks@[ci].pid == o.current.unwrap());
    k.lemma_index_of_pid(ci);
}

/// What replacing the running task's program by the application `app`
/// does to the kernel `old`, giving `new`: the task keeps its pid, place in
/// the process tree, status and scheduling parameters; its address space is
/// replaced by the application's in a fresh page table, its registers and
/// heap are reset for the application's start, and its old page table is
/// released with every frame in it. No other task and no other page table
/// changes.
pub open spec fn exec_effect(old: Kernel, new: Kernel, app: &AppImage) -> bool {
    let ci = old.cur_index();
    let t = old.cur_task();
    let nt = new.tasks@[ci];
    let nr = nt.memory_set.root();
    &&& new.current == old.current
    &&& new.next_pid == old.next_pid
    &&& new.ready_queue@ == old.ready_queue@
    &&& new.tasks@.len() == old.tasks@.len()
    &&& new.cur_index() == ci
    &&& forall|j: int| 0 <= j < old.tasks@.len() && j != ci ==> #[trigger] new.tasks@[j] == old.tasks@[j]
    &&& nt.pid == t.pid
    &&& nt.parent == t.parent
    &&& nt.children@ == t.children@
    &&& nt.status == t.status
    &&& nt.exit_code == t.exit_code
    &&& nt.priority == t.priority
    &&& nt.stride == t.stride
    &&& nt.syscall_times@ == t.syscall_times@
    &&& nt.memory_set.areas@ == app_areas(app)
    &&& nt.trap_a0 == 0
    &&& nt.trap_pc == app.entry
    &&& nt.trap_sp == app_stack_top(app)
    &&& nt.heap_bottom == app_stack_top(app)
    &&& nt.program_brk == app_stack_top(app)
    &&& !old.mem.is_root(nr)
    &&& forall|r: u64| #[trigger] new.mem.is_root(r) <==> ((old.mem.is_root(r) && r != t.memory_set.root()) || r == nr)
    &&& forall|v: u64| #[trigger] new.mem.is_mapped(nr, v) <==> areas_cover(app_areas(app), v)
    &&& forall|k: int, v: u64| 0 <= k < app_areas(app).len() && (#[trigger] app_areas(app)[k]).spec_contains(v)
        ==> ((#[trigger] new.mem.entry(nr, v)) matches Some(e) && e.flags == entry_flags(app_areas(app)[k].map_perm))
    &&& forall|p: u64| #[trigger] new.mem.frames.is_allocated(p) <==> ((old.mem.frames.is_allocated(p)
        || p == nr || new.mem.owns_data(nr, p)) && !old.mem.owns_data(t.memory_set.root(), p) && p != t.memory_set.root())
    &&& forall|v: u64| #[trigger] new.mem.entry(t.memory_set.root(), v) is None
    &&& forall|r: u64, v: u64| r != t.memory_set.root() && r != nr ==> #[trigger] new.mem.entry(r, v) == old.mem.entry(r, v)
}

impl Kernel {
    /// Replaces the running task's program by the application at position
    /// `ai`.
    pub fn exec_current(&mut self, ai: usize)
        requires
            old(self).wf(),
            old(self).current is Some,
            ai < old(self).apps@.len(),
            app_fits(&old(self).apps@[ai as int]),
            old(self).mem.free_frames() >= app_frames(&old(self).apps@[ai as int]),
        ensures
            old(self).pages_in_areas() ==> final(self).pages_in_areas(),
            final(self).wf(),
            exec_effect(*old(self), *final(self), &old(self).apps@[ai as int]),
            final(self).apps@ == old(self).apps@,
    {
        let ci = self.current_index();
        let ghost o = *self;
        proof { assert(o.tasks@[ci as int].memory_set.wf(&o.mem)); }
        let (ms, user_sp, entry) = MemorySet::from_app(&self.apps[ai], &mut self.mem);
        let ghost m1 = self.mem;
        let mut t = self.tasks.remove(ci);
        let old_root = t.memory_set.page_table.root_ppn;
        t.memory_set.recycle_data_pages(&mut self.mem);
        let ghost m2 = self.mem;
        t.memory_set = ms;
        t.trap_a0 = 0;
        t.trap_pc = entry;
        t.trap_sp = user_sp;
        t.heap_bottom = user_sp;
        t.program_brk = user_sp;
        self.tasks.insert(ci, t);
        proof {
            assert(m1.is_root(old_root)) by {
                let q = choose|q: int| 0 <= q < o.mem.roots@.len() && o.mem.roots@[q] == old_root;
                assert(m1.roots@[q] == old_root);
            }
            assert(m2.is_root(old_root));
        }
        self.mem.free_root(old_root);
        proof {
            let nr = ms.root();
            assert(nr != old_root);
            assert(self.tasks@ == o.tasks@.update(ci as int, t));
            assert(self.mem.is_root(nr)) by {
                assert(m1.roots@[o.mem.roots@.len() as int] == nr);
                assert(m2.is_root(nr));
            }
            assert(t.memory_set.wf(&self.mem));
            assert forall|r: u64| #[trigger] self.mem.is_root(r) <==> ((o.mem.is_root(r) && r != o.cur_root()) || r == nr) by {
                if m1.is_root(r) {
                    let q = choose|q: int| 0 <= q < m1.roots@.len() && m1.roots@[q] == r;
                    if q < o.mem.roots@.len() {
                        assert(o.mem.roots@[q] == r);
                    }
                }
                if o.mem.is_root(r) {
                    let q = choose|q: int| 0 <= q < o.mem.roots@.len() && o.mem.roots@[q] == r;
                    assert(m1.roots@[q] == r);
                }
            }
            assert(t.memory_set.areas@ == app_areas(&o.apps@[ai as int]));
            assert forall|v: u64| #[trigger] self.mem.is_mapped(nr, v) <==> t.memory_set.covers(v) by {
                assert(self.mem.entry(nr, v) == m2.entry(nr, v));
                assert(m2.entry(nr, v) == m1.entry(nr, v));
                assert(m1.is_mapped(nr, v) == areas_cover(app_areas(&o.apps@[ai as int]), v));
            }
            assert forall|k: int, v: u64| 0 <= k < app_areas(&o.apps@[ai as int]).len()
                && (#[trigger] app_areas(&o.apps@[ai as int])[k]).spec_contains(v)
                implies ((#[trigger] self.mem.entry(nr, v)) matches Some(e)
                    && e.flags == entry_flags(app_areas(&o.apps@[ai as int])[k].map_perm)) by {
                assert(self.mem.entry(nr, v) == m2.entry(nr, v));
                assert(m2.entry(nr, v) == m1.entry(nr, v));
            }
            assert forall|r: u64, v: u64| r != o.cur_root() && r != nr implies #[trigger] self.mem.entry(r, v) == o.mem.entry(r, v) by {
                assert(self.mem.entry(r, v) == m2.entry(r, v));
                assert(m2.entry(r, v) == m1.entry(r, v));
            }
            assert forall|v: u64| #[trigger] self.mem.entry(o.cur_root(), v) is None by {
                assert(self.mem.entry(old_root, v) == m2.entry(old_root, v));
            }
            assert forall|p: u64| #[trigger] self.mem.frames.is_allocated(p) <==> ((o.mem.frames.is_allocated(p)
                || p == nr || self.mem.owns_data(nr, p)) && !o.mem.owns_data(old_root, p) && p != old_root) by {
                if m1.owns_data(old_root, p) {
                    let v = choose|v: u64| #[trigger] m1.entry(old_root, v) matches Some(e) && e.ppn == p;
                    assert(o.mem.entry(old_root, v) == m1.entry(old_root, v));
                }
                if o.mem.owns_data(old_root, p) {
                    let v = choose|v: u64| #[trigger] o.mem.entry(old_root, v) matches Some(e) && e.ppn == p;
                    assert(o.mem.entry(old_root, v) == m1.entry(old_root, v));
                    assert(m1.owns_data(old_root, p));
                }
                if m1.owns_data(nr, p) {
                    let v = choose|v: u64| #[trigger] m1.entry(nr, v) matches Some(e) && e.ppn == p;
                    assert(self.mem.entry(nr, v) == m2.entry(nr, v));
                    assert(m2.entry(nr, v) == m1.entry(nr, v));
                    assert(self.mem.owns_data(nr, p));
                }
                if self.mem.owns_data(nr, p) {
                    let v = choose|v: u64| #[trigger] self.mem.entry(nr, v) matches Some(e) && e.ppn == p;
                    assert(self.mem.entry(nr, v) == m2.entry(nr, v));
                    assert(m2.entry(nr, v) == m1.entry(nr, v));
                    assert(m1.owns_data(nr, p));
                }
            }
            lemma_wf_after_space_replace(o, *self);
        }
    }
}


/// The kernel stays well formed when the running task, its pages all
/// cleared and its areas dropped, becomes a zombie and stops running.
#[verifier::spinoff_prover]
pub proof fn lemma_wf_after_becoming_zombie(o: Kernel, k: Kernel)
    requires
        o.wf(),
        o.current is Some,
        k.mem.wf(),
        k.current is None,
        k.next_pid == o.next_pid,
        k.tasks@.len() == o.tasks@.len(),
        forall|j: int| 0 <= j < o.tasks@.len() && j != o.cur_index() ==> #[trigger] k.tasks@[j] == o.tasks@[j],
        k.tasks@[o.cur_index()].pid == o.cur_task().pid,
        k.tasks@[o.cur_index()].memory_set.page_table == o.cur_task().memory_set.page_table,
        k.tasks@[o.cur_index()].memory_set.areas@ == Seq::<MapArea>::empty(),
        k.mem.roots@ == o.mem.roots@,
        forall|v: u64| #[trigger] k.mem.entry(o.cur_root(), v) is None,
        forall|r: u64, v: u64| r != o.cur_root() ==> #[trigger] k.mem.entry(r, v) == o.mem.entry(r, v),
    ensures
        o.pages_in_areas() ==> k.pages_in_areas(),
        k.wf(),
{
    let ci = o.cur_index();
    let cr = o.cur_root();
    assert forall|a: int, b: int|
        0 <= a < b < k.tasks@.len() implies (#[trigger] k.tasks@[a]).pid != (#[trigger] k.tasks@[b]).pid by {
        assert(o.tasks@[a].pid != o.tasks@[b].pid);
    }
    assert forall|a: int, b: int|
        0 <= a < b < k.tasks@.len() implies (#[trigger] k.tasks@[a]).memory_set.root()
            != (#[trigger] k.tasks@[b]).memory_set.root() by {
        assert(o.tasks@[a].memory_set.root() != o.tasks@[b].memory_set.root());
    }
    assert forall|j: int| 0 <= j < k.tasks@.len() && j != ci implies #[trigger] o.tasks@[j].memory_set.root() != cr by {
        if j < ci {
            assert(o.tasks@[j].memory_set.root() != o.tasks@[ci].memory_set.root());
        } else {
            assert(o.tasks@[ci].memory_set.root() != o.tasks@[j].memory_set.root());
        }
    }
    assert forall|j: int| 0 <= j < k.tasks@.len() implies {
        let t = #[trigger] k.tasks@[j];
        &&& t.memory_set.wf(&k.mem)
        &&& t.pid < k.next_pid
        &&& t.status == TaskStatus::Zombie ==> forall|v: u64| #[trigger] k.mem.entry(t.memory_set.root(), v) is None
    } by {
        let t = k.tasks@[j];
        assert(o.tasks@[j].memory_set.wf(&o.mem));
        assert(o.tasks@[j].pid < o.next_pid);
        if j != ci {
            if t.status == TaskStatus::Zombie {
                assert forall|v: u64| #[trigger] k.mem.entry(t.memory_set.root(), v) is None by {
                    assert(o.mem.entry(o.tasks@[j].memory_set.root(), v) is None);
                }
            }
        }
    }
        if o.pages_in_areas() {
            assert forall|j: int, v: u64|
            0 <= j < k.tasks@.len() && (#[trigger] k.mem.entry(k.tasks@[j].memory_set.root(), v)) is Some
                implies k.tasks@[j].memory_set.covers(v) by {
            if j != ci {
                assert(o.mem.entry(o.tasks@[j].memory_set.root(), v) is Some);
            }
        }
    }
}

impl Kernel {
    /// Sets the parent of the task at position `i`.
    pub fn set_parent(&mut self, i: usize, parent: Option<usize>)
        requires
            old(self).wf(),
            i < old(self).tasks@.len(),
        ensures
            old(self).pages_in_areas() ==> final(self).pages_in_areas(),
            final(self).wf(),
            final(self).mem == old(self).mem,
            final(self).current == old(self).current,
            final(self).next_pid == old(self).next_pid,
            final(self).ready_queue@ == old(self).ready_queue@,
            final(self).tasks@.len() == old(self).tasks@.len(),
            forall|j: int| 0 <= j < old(self).tasks@.len() && j != i ==> #[trigger] final(self).tasks@[j] == old(self).tasks@[j],
            same_task(final(self).tasks@[i as int], TaskControlBlock { parent, ..old(self).tasks@[i as int] }),
    {
        let ghost o = *self;
        let mut t = self.tasks.remove(i);
        t.parent = parent;
        self.tasks.insert(i, t);
        proof {
            assert(self.tasks@ == o.tasks@.update(i as int, t));
            lemma_wf_after_fields_change(o, *self, i as int);
        }
    }

    /// Appends `more` to the children of the task at position `i`.
    pub fn append_children(&mut self, i: usize, more: &Vec<usize>)
        requires
            old(self).wf(),
            i < old(self).tasks@.len(),
        ensures
            old(self).pages_in_areas() ==> final(self).pages_in_areas(),
            final(self).wf(),
            final(self).mem == old(self).mem,
            final(self).current == old(self).current,
            final(self).next_pid == old(self).next_pid,
            final(self).ready_queue@ == old(self).ready_queue@,
            final(self).tasks@.len() == old(self).tasks@.len(),
            forall|j: int| 0 <= j < old(self).tasks@.len() && j != i ==> #[trigger] final(self).tasks@[j] == old(self).tasks@[j],
            same_but_children(final(self).tasks@[i as int], old(self).tasks@[i as int]),
            final(self).tasks@[i as int].children@ == old(self).tasks@[i as int].children@ + more@,
    {
        let ghost o = *self;
        let mut t = self.tasks.remove(i);
        let mut k: usize = 0;
        while k < more.len()
            invariant
                k <= more@.len(),
                same_but_children(t, o.tasks@[i as int]),
                t.children@ == o.tasks@[i as int].children@ + more@.subrange(0, k as int),
            decreases more@.len() - k,
        {
            t.children.push(more[k]);
            proof {
                assert(more@.subrange(0, k as int + 1) =~= more@.subrange(0, k as int).push(more@[k as int]));
            }
            k = k + 1;
        }
        proof { assert(more@.subrange(0, more@.len() as int) =~= more@); }
        self.tasks.insert(i, t);
        proof {
            assert(self.tasks@ == o.tasks@.update(i as int, t));
            lemma_wf_after_fields_change(o, *self, i as int);
        }
    }
}

/// What the running task's exit with `exit_code` does to the kernel `old`,
/// giving `new`, when it is not the initial process: it becomes a zombie
/// with that exit code, no task runs, every page of its address space is
/// cleared and its areas dropped (its page table stays until it is reaped);
/// its children are handed to the initial process, whose children list gains
/// them at its end. No other task and no other page table changes.
pub open spec fn exit_effect(old: Kernel, new: Kernel, exit_code: i32) -> bool {
    let ci = old.cur_index();
    let t = old.cur_task();
    let orphans = t.children@;
    &&& new.current is None
    &&& new.next_pid == old.next_pid
    &&& new.ready_queue@ == old.ready_queue@
    &&& new.tasks@.len() == old.tasks@.len()
    &&& new.tasks@[ci].pid == t.pid
    &&& new.tasks@[ci].parent == t.parent
    &&& new.tasks@[ci].status == TaskStatus::Zombie
    &&& new.tasks@[ci].exit_code == exit_code
    &&& new.tasks@[ci].children@ == Seq::<usize>::empty()
    &&& new.tasks@[ci].memory_set.page_table == t.memory_set.page_table
    &&& new.tasks@[ci].memory_set.areas@ == Seq::<MapArea>::empty()
    &&& new.tasks@[ci].trap_a0 == t.trap_a0
    &&& new.tasks@[ci].priority == t.priority
    &&& new.tasks@[ci].stride == t.stride
    &&& new.tasks@[ci].syscall_times@ == t.syscall_times@
    &&& forall|j: int| 0 <= j < old.tasks@.len() && j != ci ==> {
        let a = #[trigger] new.tasks@[j];
        let b = old.tasks@[j];
        &&& same_identity(a, b)
        &&& a.status == b.status
        &&& a.exit_code == b.exit_code
        &&& a.trap_a0 == b.trap_a0
        &&& a.priority == b.priority
        &&& a.stride == b.stride
        &&& a.heap_bottom == b.heap_bottom
        &&& a.program_brk == b.program_brk
        &&& a.syscall_times@ == b.syscall_times@
        &&& a.parent == if orphans.contains(b.pid) { Some(INIT_PID) } else { b.parent }
        &&& a.children@ == if b.pid == INIT_PID { b.children@ + orphans } else { b.children@ }
    }
    &&& new.mem.roots@ == old.mem.roots@
    &&& new.mem.leaf_tables@ == old.mem.leaf_tables@
    &&& forall|v: u64| #[trigger] new.mem.entry(t.memory_set.root(), v) is None
    &&& forall|r: u64, v: u64| r != t.memory_set.root() ==> #[trigger] new.mem.entry(r, v) == old.mem.entry(r, v)
    &&& forall|p: u64| #[trigger] new.mem.frames.is_allocated(p) <==> (old.mem.frames.is_allocated(p)
        && !old.mem.owns_data(t.memory_set.root(), p))
}

impl Kernel {
    /// Ends the running task with `exit_code`. Returns true, changing
    /// nothing, when it is the initial process, whose exit shuts the machine
    /// down; otherwise it becomes a zombie (see `exit_effect`) and false is
    /// returned.
    pub fn exit_current(&mut self, exit_code: i32) -> (shutdown: bool)
        requires
            old(self).wf(),
            old(self).current is Some,
            old(self).current != Some(INIT_PID) ==> {
                &&& !old(self).cur_task().children@.contains(INIT_PID)
                &&& !old(self).cur_task().children@.contains(old(self).current.unwrap())
            },
        ensures
            old(self).pages_in_areas() ==> final(self).pages_in_areas(),
            final(self).wf(),
            shutdown == (old(self).current == Some(INIT_PID)),
            shutdown ==> *final(self) == *old(self),
            !shutdown ==> exit_effect(*old(self), *final(self), exit_code),
    {
        let pid = self.current_pid();
        if pid == INIT_PID {
            return true;
        }
        let ci = self.current_index();
        let ghost o = *self;
        let mut t = self.tasks.remove(ci);
        t.memory_set.recycle_data_pages(&mut self.mem);
        t.status = TaskStatus::Zombie;
        t.exit_code = exit_code;
        let mut children: Vec<usize> = Vec::new();
        std::mem::swap(&mut children, &mut t.children);
        self.tasks.insert(ci, t);
        self.current = None;
        proof {
            assert(self.tasks@ == o.tasks@.update(ci as int, t));
            lemma_wf_after_becoming_zombie(o, *self);
        }
        let ghost z = *self;
        let mut k: usize = 0;
        while k < children.len()
            invariant
                self.wf(),
                z.wf(),
                k <= children@.len(),
                children@ == o.cur_task().children@,
                !children@.contains(INIT_PID),
                !children@.contains(pid),
                pid == o.current.unwrap(),
                ci == o.cur_index(),
                ci < z.tasks@.len(),
                z.tasks@[ci as int].pid == pid,
                self.mem == z.mem,
                self.current == z.current,
                self.next_pid == z.next_pid,
                self.ready_queue@ == z.ready_queue@,
                self.tasks@.len() == z.tasks@.len(),
                forall|j: int| 0 <= j < z.tasks@.len() ==> {
                    let a = #[trigger] self.tasks@[j];
                    let b = z.tasks@[j];
                    &&& same_identity(a, b)
                    &&& a.status == b.status
                    &&& a.exit_code == b.exit_code
                    &&& a.trap_a0 == b.trap_a0
                    &&& a.priority == b.priority
                    &&& a.stride == b.stride
                    &&& a.heap_bottom == b.heap_bottom
                    &&& a.program_brk == b.program_brk
                    &&& a.syscall_times@ == b.syscall_times@
                    &&& a.children@ == b.children@
                    &&& a.parent == if children@.subrange(0, k as int).contains(b.pid) { Some(INIT_PID) } else { b.parent }
                },
            decreases children@.len() - k,
        {
            let c = children[k];
            match self.find_task(c) {
                Some(j) => {
                    let ghost before = *self;
                    self.set_parent(j, Some(INIT_PID));
                    proof {
                        assert(c != pid);
                        assert(j != ci);
                        let sub = children@.subrange(0, k as int);
                        let sub1 = children@.subrange(0, k as int + 1);
                        assert(sub1 =~= sub.push(c));
                        assert forall|q: int| 0 <= q < z.tasks@.len() implies
                            (sub1.contains(#[trigger] z.tasks@[q].pid) <==> (sub.contains(z.tasks@[q].pid) || z.tasks@[q].pid == c)) by {
                            if sub1.contains(z.tasks@[q].pid) {
                                let w = choose|w: int| 0 <= w < sub1.len() && sub1[w] == z.tasks@[q].pid;
                                if w < sub.len() {
                                    assert(sub[w] == sub1[w]);
                                }
                            }
                            if sub.contains(z.tasks@[q].pid) {
                                let w = choose|w: int| 0 <= w < sub.len() && sub[w] == z.tasks@[q].pid;
                                assert(sub1[w] == sub[w]);
                            }
                            if z.tasks@[q].pid == c {
                                assert(sub1[k as int] == c);
                            }
                        }
                        assert(self.tasks@[j as int].pid == c);
                        assert(z.tasks@[j as int].pid == c);
                    }
                },
                None => {
                    proof {
                        let sub = children@.subrange(0, k as int);
                        let sub1 = children@.subrange(0, k as int + 1);
                        assert(sub1 =~= sub.push(c));
                        assert forall|q: int| 0 <= q < z.tasks@.len() implies
                            (sub1.contains(#[trigger] z.tasks@[q].pid) <==> sub.contains(z.tasks@[q].pid)) by {
                            if z.tasks@[q].pid == c {
                                assert(self.tasks@[q].pid == c);
                                assert(self.has_pid(c));
                            }
                            if sub1.contains(z.tasks@[q].pid) {
                                let w = choose|w: int| 0 <= w < sub1.len() && sub1[w] == z.tasks@[q].pid;
                                if w < sub.len() {
                                    assert(sub[w] == sub1[w]);
                                }
                            }
                            if sub.contains(z.tasks@[q].pid) {
                                let w = choose|w: int| 0 <= w < sub.len() && sub[w] == z.tasks@[q].pid;
                                assert(sub1[w] == sub[w]);
                            }
                        }
                    }
                },
            }
            k = k + 1;
        }
        proof { assert(children@.subrange(0, children@.len() as int) =~= children@); }
        let ghost r = *self;
        match self.find_task(INIT_PID) {
            Some(ii) => {
                self.append_children(ii, &children);
            },
            None => {},
        }
        proof {
            assert forall|j: int| 0 <= j < o.tasks@.len() && j != ci implies
                (#[trigger] self.tasks@[j]).children@ == if o.tasks@[j].pid == INIT_PID {
                    o.tasks@[j].children@ + children@
                } else {
                    o.tasks@[j].children@
                } by {
                assert(z.tasks@[j] == o.tasks@[j]);
                if o.tasks@[j].pid == INIT_PID {
                    assert(r.tasks@[j].pid == INIT_PID);
                    r.lemma_index_of_pid(j);
                }
            }
        }
        false
    }
}


impl Kernel {
    /// Every page-table root lies below the 44-bit frame-number limit.
    pub proof fn lemma_cur_root_bound(self)
        requires
            self.wf(),
            self.current is Some,
        ensures
            self.cur_root() < 0x1000_0000_0000,
            crate::memory_set::spec_token_root(crate::memory_set::spec_token(self.cur_root())) == self.cur_root(),
    {
        let t = self.cur_task();
        assert(t.memory_set.wf(&self.mem));
        let q = choose|q: int| 0 <= q < self.mem.roots@.len() && self.mem.roots@[q] == self.cur_root();
        assert(self.mem.frames.is_allocated(self.mem.roots@[q]));
        crate::memory_set::lemma_token_round_trip(self.cur_root());
    }

    /// The `satp` value of the running task's address space.
    pub fn current_user_token(&self) -> (r: u64)
        requires
            self.wf(),
            self.current is Some,
        ensures
            r == crate::memory_set::spec_token(self.cur_root()),
            crate::memory_set::spec_token_root(r) == self.cur_root(),
    {
        let i = self.current_index();
        proof { self.lemma_cur_root_bound(); }
        self.tasks[i].memory_set.token()
    }

    /// Installs `ms`, an address space over the running task's own page
    /// table, as the running task's address space. The areas recorded so far
    /// are dropped; the pages they mapped stay mapped.
    pub fn change_current_memory_set(&mut self, ms: MemorySet)
        requires
            old(self).wf(),
            old(self).current is Some,
            ms.root() == old(self).cur_root(),
            ms.wf(&old(self).mem),
        ensures
            final(self).wf(),
            final(self).mem == old(self).mem,
            final(self).current == old(self).current,
            final(self).next_pid == old(self).next_pid,
            final(self).ready_queue@ == old(self).ready_queue@,
            final(self).tasks@.len() == old(self).tasks@.len(),
            final(self).cur_index() == old(self).cur_index(),
            forall|j: int| 0 <= j < old(self).tasks@.len() && j != old(self).cur_index() ==>
                #[trigger] final(self).tasks@[j] == old(self).tasks@[j],
            same_but_areas(final(self).cur_task(), old(self).cur_task()),
            final(self).cur_task().memory_set.areas@ == ms.areas@,
    {
        let i = self.current_index();
        let ghost o = *self;
        let mut t = self.tasks.remove(i);
        t.memory_set = ms;
        self.tasks.insert(i, t);
        proof {
            assert(self.tasks@ == o.tasks@.update(i as int, t));
            lemma_wf_after_current_space_change(o, *self);
        }
    }
}


impl Kernel {
    /// Adds the areas `more` after the running task's own; its page table
    /// and memory are left as they are.
    pub fn append_current_areas(&mut self, more: Vec<MapArea>)
        requires
            old(self).wf(),
            old(self).current is Some,
            forall|k: int| 0 <= k < more@.len() ==> (#[trigger] more@[k]).start_vpn <= more@[k].end_vpn <= VPN_SPACE,
        ensures
            final(self).wf(),
            final(self).mem == old(self).mem,
            final(self).current == old(self).current,
            final(self).next_pid == old(self).next_pid,
            final(self).ready_queue@ == old(self).ready_queue@,
            final(self).apps == old(self).apps,
            final(self).tasks@.len() == old(self).tasks@.len(),
            final(self).cur_index() == old(self).cur_index(),
            forall|j: int| 0 <= j < old(self).tasks@.len() && j != old(self).cur_index() ==>
                #[trigger] final(self).tasks@[j] == old(self).tasks@[j],
            same_but_areas(final(self).cur_task(), old(self).cur_task()),
            final(self).cur_task().memory_set.areas@ == old(self).cur_task().memory_set.areas@ + more@,
    {
        let i = self.current_index();
        let ghost o = *self;
        let mut t = self.tasks.remove(i);
        proof {
            assert(t == o.tasks@[i as int]);
            assert(t.memory_set.wf(&o.mem));
        }
        let ghost base = t.memory_set.areas@;
        let mut k: usize = 0;
        while k < more.len()
            invariant
                k <= more@.len(),
                t.memory_set.page_table == o.tasks@[i as int].memory_set.page_table,
                t.memory_set.areas@ == base + more@.subrange(0, k as int),
                base == o.tasks@[i as int].memory_set.areas@,
                forall|q: int| 0 <= q < more@.len() ==> (#[trigger] more@[q]).start_vpn <= more@[q].end_vpn <= VPN_SPACE,
                forall|q: int| 0 <= q < t.memory_set.areas@.len() ==>
                    (#[trigger] t.memory_set.areas@[q]).start_vpn <= t.memory_set.areas@[q].end_vpn <= VPN_SPACE,
                same_but_areas(t, o.tasks@[i as int]),
            decreases more@.len() - k,
        {
            t.memory_set.areas.push(more[k]);
            proof {
                assert(t.memory_set.areas@ =~= base + more@.subrange(0, k as int + 1));
            }
            k = k + 1;
        }
        proof {
            assert(more@.subrange(0, more@.len() as int) =~= more@);
            assert(t.memory_set.wf(&o.mem));
        }
        self.tasks.insert(i, t);
        proof {
            assert(self.tasks@ == o.tasks@.update(i as int, t));
            lemma_wf_after_current_space_change(o, *self);
        }
    }
}

/// The kernel stays well formed when a ready task with a fresh pid and a
/// page table of its own is appended.
#[verifier::spinoff_prover]
pub proof fn lemma_wf_after_new_task(o: Kernel, k: Kernel)
    requires
        o.wf(),
        k.mem.wf(),
        k.current == o.current,
        k.next_pid == o.next_pid + 1,
        k.tasks@ == o.tasks@.push(k.tasks@.last()),
        k.tasks@.last().pid == o.next_pid,
        k.tasks@.last().status == TaskStatus::Ready,
        k.tasks@.last().memory_set.wf(&k.mem),
        !o.mem.is_root(k.tasks@.last().memory_set.root()),
        k.mem.roots@ == o.mem.roots@.push(k.tasks@.last().memory_set.root()),
        forall|v: u64| #[trigger] k.mem.is_mapped(k.tasks@.last().memory_set.root(), v)
            <==> k.tasks@.last().memory_set.covers(v),
        forall|rt: u64, v: u64| rt != k.tasks@.last().memory_set.root() ==>
            #[trigger] k.mem.entry(rt, v) == o.mem.entry(rt, v),
    ensures
        k.wf(),
        o.pages_in_areas() ==> k.pages_in_areas(),
        o.current is Some ==> k.cur_index() == o.cur_index(),
{
    let n = o.tasks@.len() as int;
    let child = k.tasks@[n];
    let croot = child.memory_set.root();
    assert forall|j: int| 0 <= j < n implies #[trigger] k.tasks@[j] == o.tasks@[j] by {}
    assert forall|j: int| 0 <= j < n implies o.mem.is_root(#[trigger] o.tasks@[j].memory_set.root()) by {
        assert(o.tasks@[j].memory_set.wf(&o.mem));
    }
    assert forall|r: u64| o.mem.is_root(r) implies #[trigger] k.mem.is_root(r) by {
        let q = choose|q: int| 0 <= q < o.mem.roots@.len() && o.mem.roots@[q] == r;
        assert(k.mem.roots@[q] == r);
    }
    assert forall|a: int, b: int|
        0 <= a < b < k.tasks@.len() implies (#[trigger] k.tasks@[a]).pid != (#[trigger] k.tasks@[b]).pid by {
        if b < n {
            assert(o.tasks@[a].pid != o.tasks@[b].pid);
        } else {
            assert(o.tasks@[a].pid < o.next_pid);
        }
    }
    assert forall|a: int, b: int|
        0 <= a < b < k.tasks@.len() implies (#[trigger] k.tasks@[a]).memory_set.root()
            != (#[trigger] k.tasks@[b]).memory_set.root() by {
        if b < n {
            assert(o.tasks@[a].memory_set.root() != o.tasks@[b].memory_set.root());
        } else {
            assert(o.mem.is_root(o.tasks@[a].memory_set.root()));
        }
    }
    assert forall|j: int| 0 <= j < k.tasks@.len() implies {
        let t = #[trigger] k.tasks@[j];
        &&& t.memory_set.wf(&k.mem)
        &&& t.pid < k.next_pid
        &&& t.status == TaskStatus::Zombie ==> forall|v: u64| #[trigger] k.mem.entry(t.memory_set.root(), v) is None
    } by {
        let t = k.tasks@[j];
        if j < n {
            assert(o.tasks@[j].memory_set.wf(&o.mem));
            assert(o.tasks@[j].pid < o.next_pid);
            if t.status == TaskStatus::Zombie {
                assert(o.mem.is_root(t.memory_set.root()));
                assert forall|v: u64| #[trigger] k.mem.entry(t.memory_set.root(), v) is None by {
                    assert(o.mem.entry(o.tasks@[j].memory_set.root(), v) is None);
                }
            }
        }
    }
    if o.pages_in_areas() {
        assert forall|j: int, v: u64|
            0 <= j < k.tasks@.len() && (#[trigger] k.mem.entry(k.tasks@[j].memory_set.root(), v)) is Some
                implies k.tasks@[j].memory_set.covers(v) by {
            if j < n {
                assert(o.mem.is_root(k.tasks@[j].memory_set.root()));
                assert(o.mem.entry(o.tasks@[j].memory_set.root(), v) is Some);
            } else {
                assert(k.mem.is_mapped(croot, v));
            }
        }
    }
    if o.current is Some {
        let ci = o.cur_index();
        assert(k.tasks@[ci].pid == o.current.unwrap());
        k.lemma_index_of_pid(ci);
    }
}

impl Kernel {
    /// A kernel with no task yet, physical frames `[frames_start, frames_end)`
    /// all free, and the applications `apps` to load from.
    pub fn new(frames_start: u64, frames_end: u64, apps: Vec<AppImage>) -> (r: Kernel)
        requires
            frames_start <= frames_end <= 0x1000_0000_0000,
        ensures
            crate::process_tree::children_unique(r),
            r.wf(),
            r.pages_in_areas(),
            r.tasks@ == Seq::<TaskControlBlock>::empty(),
            r.current is None,
            r.ready_queue@ == Seq::<usize>::empty(),
            r.next_pid == 0,
            r.apps@ == apps@,
            r.mem.free_frames() == frames_end - frames_start,
            r.mem.roots@ == Seq::<u64>::empty(),
    {
        Kernel {
            mem: PhysMemory::new(frames_start, frames_end),
            tasks: Vec::new(),
            current: None,
            ready_queue: Vec::new(),
            next_pid: 0,
            apps,
        }
    }

    /// Loads the application at position `ai` as a new task with no parent,
    /// queues it as ready, and returns its pid; the first task so created
    /// is the initial process.
    pub fn create_task(&mut self, ai: usize) -> (pid: usize)
        requires
            old(self).wf(),
            old(self).next_pid < usize::MAX,
            ai < old(self).apps@.len(),
            app_fits(&old(self).apps@[ai as int]),
            old(self).mem.free_frames() >= app_frames(&old(self).apps@[ai as int]),
        ensures
            crate::process_tree::children_unique(*old(self)) ==> crate::process_tree::children_unique(*final(self)),
            final(self).wf(),
            old(self).pages_in_areas() ==> final(self).pages_in_areas(),
            pid == old(self).next_pid,
            final(self).next_pid == old(self).next_pid + 1,
            final(self).current == old(self).current,
            final(self).ready_queue@ == old(self).ready_queue@.push(pid),
            final(self).tasks@.len() == old(self).tasks@.len() + 1,
            forall|j: int| 0 <= j < old(self).tasks@.len() ==> #[trigger] final(self).tasks@[j] == old(self).tasks@[j],
            loaded_task(&old(self).apps@[ai as int], pid, final(self).tasks@.last()),
            final(self).tasks@.last().parent is None,
            final(self).apps@ == old(self).apps@,
            final(self).mem.free_frames() + app_frames(&old(self).apps@[ai as int]) == old(self).mem.free_frames(),
    {
        let ghost o = *self;
        let (ms, user_sp, entry) = MemorySet::from_app(&self.apps[ai], &mut self.mem);
        let pid = self.next_pid;
        self.next_pid = self.next_pid + 1;
        let t = TaskControlBlock {
            pid,
            parent: None,
            children: Vec::new(),
            status: TaskStatus::Ready,
            exit_code: 0,
            memory_set: ms,
            trap_a0: 0,
            trap_pc: entry,
            trap_sp: user_sp,
            priority: DEFAULT_PRIORITY,
            stride: 0,
            heap_bottom: user_sp,
            program_brk: user_sp,
            syscall_times: Vec::new(),
        };
        self.tasks.push(t);
        self.ready_queue.push(pid);
        proof {
            lemma_wf_after_new_task(o, *self);
            if crate::process_tree::children_unique(o) {
                crate::process_tree::lemma_children_new_task(o, *self);
            }
        }
        pid
    }
}

} // verus!
