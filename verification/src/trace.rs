use vstd::prelude::*;
use crate::config::PAGE_SIZE;
use crate::address::{virt_addr, floor, spec_virt_addr, spec_floor};
use crate::page_table::{PhysMemory, PageTableEntry, PTE_R, PTE_W, PTE_U};
use crate::memory_set::{PageTable, spec_token_root};
use crate::task::{Kernel, TaskControlBlock, same_task, lemma_wf_after_fields_change};
use crate::process::{TimeVal, time_val_bytes};
use crate::process_tree::children_unique;

verus! {

/// Number of system calls whose use is counted.
pub const MAX_SYSCALL_NUM: u64 = 500;

/// The entry that a walk finds for the user address `va` is valid,
/// user-accessible and has the permission bit `bit`.
pub open spec fn user_access_ok(mem: PhysMemory, root: u64, va: u64, bit: u8) -> bool {
    match mem.spec_translate(root, spec_floor(spec_virt_addr(va))) {
        Some(pte) => pte.valid() && pte.flags & PTE_U != 0 && pte.flags & bit != 0,
        None => false,
    }
}

/// Physical address of the user address `va` in the address space named by
/// `token`, when the page holding it is mapped user-accessible with the
/// permission bit `bit`; `Err` otherwise.
fn translated_access(mem: &PhysMemory, token: u64, va: u64, bit: u8) -> (r: Result<u64, ()>)
    requires
        mem.wf(),
    ensures
        match r {
            Ok(pa) => user_access_ok(*mem, spec_token_root(token), va, bit)
                && mem.spec_translate_va(spec_token_root(token), va) == Some(pa),
            Err(_) => !user_access_ok(*mem, spec_token_root(token), va, bit),
        },
{
    let root = PageTable::from_token(token).root_ppn;
    let v = virt_addr(va);
    proof { mem.lemma_translate_ppn_bound(root, spec_floor(v)); }
    match mem.translate(root, floor(v)) {
        Some(pte) => {
            if pte.is_valid() && pte.flags & PTE_U != 0 && pte.flags & bit != 0 {
                Ok(pte.ppn * PAGE_SIZE + v % PAGE_SIZE)
            } else {
                Err(())
            }
        },
        None => Err(()),
    }
}

/// Physical address of the user byte at `va` for reading, when its page is
/// mapped readable by the user; `Err` otherwise.
pub fn translated_ref(mem: &PhysMemory, token: u64, va: u64) -> (r: Result<u64, ()>)
    requires
        mem.wf(),
    ensures
        match r {
            Ok(pa) => user_access_ok(*mem, spec_token_root(token), va, PTE_R)
                && mem.spec_translate_va(spec_token_root(token), va) == Some(pa),
            Err(_) => !user_access_ok(*mem, spec_token_root(token), va, PTE_R),
        },
{
    translated_access(mem, token, va, PTE_R)
}

/// Physical address of the user object at `va` for writing, when its page
/// is mapped writable by the user; `Err` otherwise.
pub fn translated_refmut(mem: &PhysMemory, token: u64, va: u64) -> (r: Result<u64, ()>)
    requires
        mem.wf(),
    ensures
        match r {
            Ok(pa) => user_access_ok(*mem, spec_token_root(token), va, PTE_W)
                && mem.spec_translate_va(spec_token_root(token), va) == Some(pa),
            Err(_) => !user_access_ok(*mem, spec_token_root(token), va, PTE_W),
        },
{
    translated_access(mem, token, va, PTE_W)
}

/// How many times the task made the system call `id`.
pub open spec fn syscall_count(t: TaskControlBlock, id: u64) -> u64 {
    if id < t.syscall_times@.len() {
        t.syscall_times@[id as int]
    } else {
        0
    }
}

impl Kernel {
    /// How many times the running task made the system call `id`.
    pub fn get_syscall_counts(&self, id: u64) -> (r: u64)
        requires
            self.wf(),
            self.current is Some,
        ensures
            r == syscall_count(self.cur_task(), id),
    {
        let i = self.current_index();
        let times = &self.tasks[i].syscall_times;
        if id < times.len() as u64 {
            times[id as usize]
        } else {
            0
        }
    }

    /// Counts one more use of the system call `id` by the running task;
    /// calls numbered `MAX_SYSCALL_NUM` or above are not counted, and a
    /// count stops at its largest value.
    pub fn record_syscall(&mut self, id: u64)
        requires
            old(self).wf(),
            old(self).current is Some,
        ensures
            children_unique(*old(self)) ==> children_unique(*final(self)),
            final(self).wf(),
            old(self).pages_in_areas() ==> final(self).pages_in_areas(),
            final(self).mem == old(self).mem,
            final(self).current == old(self).current,
            final(self).next_pid == old(self).next_pid,
            final(self).ready_queue@ == old(self).ready_queue@,
            final(self).tasks@.len() == old(self).tasks@.len(),
            final(self).cur_index() == old(self).cur_index(),
            forall|j: int| 0 <= j < old(self).tasks@.len() && j != old(self).cur_index() ==>
                #[trigger] final(self).tasks@[j] == old(self).tasks@[j],
            forall|k: u64| #[trigger] syscall_count(final(self).cur_task(), k) == if k == id && id < MAX_SYSCALL_NUM {
                if syscall_count(old(self).cur_task(), k) == u64::MAX { u64::MAX } else { (syscall_count(old(self).cur_task(), k) + 1) as u64 }
            } else {
                syscall_count(old(self).cur_task(), k)
            },
    {
        if id >= MAX_SYSCALL_NUM {
            return;
        }
        let i = self.current_index();
        let ghost o = *self;
        let mut t = self.tasks.remove(i);
        while (t.syscall_times.len() as u64) <= id
            invariant
                id < MAX_SYSCALL_NUM,
                forall|k: int| 0 <= k < t.syscall_times@.len() ==> #[trigger] t.syscall_times@[k]
                    == if k < o.tasks@[i as int].syscall_times@.len() { o.tasks@[i as int].syscall_times@[k] } else { 0 },
                t.syscall_times@.len() >= o.tasks@[i as int].syscall_times@.len(),
                t.pid == o.tasks@[i as int].pid,
                t.status == o.tasks@[i as int].status,
                t.memory_set.page_table == o.tasks@[i as int].memory_set.page_table,
                t.memory_set.areas@ == o.tasks@[i as int].memory_set.areas@,
                t.children@ == o.tasks@[i as int].children@,
            decreases id + 1 - t.syscall_times@.len(),
        {
            t.syscall_times.push(0);
        }
        let n = t.syscall_times[id as usize];
        let bumped = if n == u64::MAX { n } else { n + 1 };
        t.syscall_times.set(id as usize, bumped);
        self.tasks.insert(i, t);
        proof {
            assert(self.tasks@ == o.tasks@.update(i as int, t));
            lemma_wf_after_fields_change(o, *self, i as int);
            if children_unique(o) {
                crate::process_tree::lemma_children_one_changed(o, *self, i as int);
            }
        }
    }
}

/// What the trace call asks of its caller once the kernel has decided.
#[derive(Debug, PartialEq, Eq, Structural)]
pub enum TraceOutcome {
    /// Return this value.
    Done(isize),
    /// Return the byte stored at this physical address.
    ReadByte(u64),
    /// Store this byte at this physical address, then return 0.
    WriteByte(u64, u8),
}

/// Traces the running task: request 0 reads the user byte at `id`, request 1
/// writes the low byte of `data` to the user byte at `id`, request 2 returns
/// how many times the task made the system call `id`. An address that is not
/// mapped readable (for 0) or writable (for 1) by the user, or any other
/// request, gives -1.
pub fn sys_trace(kernel: &Kernel, trace_request: u64, id: u64, data: u64) -> (r: TraceOutcome)
    requires
        kernel.wf(),
        kernel.current is Some,
    ensures
        trace_request == 0 ==> if user_access_ok(kernel.mem, kernel.cur_root(), id, PTE_R) {
            r == TraceOutcome::ReadByte(kernel.mem.spec_translate_va(kernel.cur_root(), id).unwrap())
        } else {
            r == TraceOutcome::Done(-1isize)
        },
        trace_request == 1 ==> if user_access_ok(kernel.mem, kernel.cur_root(), id, PTE_W) {
            r == TraceOutcome::WriteByte(kernel.mem.spec_translate_va(kernel.cur_root(), id).unwrap(), data as u8)
        } else {
            r == TraceOutcome::Done(-1isize)
        },
        trace_request == 2 ==> r == TraceOutcome::Done(syscall_count(kernel.cur_task(), id) as isize),
        trace_request > 2 ==> r == TraceOutcome::Done(-1isize),
{
    match trace_request {
        0 => {
            let user_token = kernel.current_user_token();
            match translated_ref(&kernel.mem, user_token, id) {
                Ok(pa) => TraceOutcome::ReadByte(pa),
                Err(_) => TraceOutcome::Done(-1),
            }
        },
        1 => {
            let user_token = kernel.current_user_token();
            match translated_refmut(&kernel.mem, user_token, id) {
                Ok(pa) => TraceOutcome::WriteByte(pa, #[verifier::truncate] (data as u8)),
                Err(_) => TraceOutcome::Done(-1),
            }
        },
        2 => TraceOutcome::Done(#[verifier::truncate] (kernel.get_syscall_counts(id) as isize)),
        _ => TraceOutcome::Done(-1),
    }
}

/// Address of the byte `k` of a user object at `ts` (wrapping at 2^64).
pub open spec fn ts_byte(ts: u64, k: int) -> u64 {
    ((ts as int + k) % 0x1_0000_0000_0000_0000) as u64
}

/// Every byte of a `TimeVal` at the user address `ts` lies in a page mapped
/// writable by the user.
pub open spec fn time_writable(mem: PhysMemory, root: u64, ts: u64) -> bool {
    forall|k: int| 0 <= k < 16 ==> user_access_ok(mem, root, #[trigger] ts_byte(ts, k), PTE_W)
}

/// The sixteen byte stores that this `sys_get_time` asks for: the time
/// `now_us` as a `TimeVal`, each byte at the physical address that the
/// matching byte of `ts` reaches, so that a `TimeVal` straddling two pages
/// lands in both frames.
pub open spec fn time_write(mem: PhysMemory, root: u64, ts: u64, now_us: u64) -> Seq<(u64, u8)> {
    let bytes = time_val_bytes(TimeVal { sec: now_us / 1_000_000, usec: now_us % 1_000_000 });
    Seq::new(16, |k: int| (mem.spec_translate_va(root, ts_byte(ts, k)).unwrap(), bytes[k]))
}

/// Reports the time `now_us` (microseconds, one clock reading) to the
/// running task at its address `ts`. Returns -1 and no store when `ts` is
/// null or some byte of the `TimeVal` there is not in a page mapped writable
/// by the user; otherwise 0 and the sixteen byte stores, each at the
/// physical address that its byte of `ts` reaches.
pub fn sys_get_time(kernel: &Kernel, ts: u64, _tz: u64, now_us: u64) -> (r: (isize, Vec<(u64, u8)>))
    requires
        kernel.wf(),
        kernel.current is Some,
    ensures
        ts == 0 || !time_writable(kernel.mem, kernel.cur_root(), ts) ==> r.0 == -1 && r.1@ == Seq::<(u64, u8)>::empty(),
        ts != 0 && time_writable(kernel.mem, kernel.cur_root(), ts) ==> r.0 == 0
            && r.1@ == time_write(kernel.mem, kernel.cur_root(), ts, now_us),
{
    if ts == 0 {
        return (-1, Vec::new());
    }
    let user_token = kernel.current_user_token();
    let ghost root = kernel.cur_root();
    let time_val = TimeVal::from_us(now_us);
    let bytes = time_val.to_bytes();
    let mut stores: Vec<(u64, u8)> = Vec::new();
    let mut k: u64 = 0;
    while k < 16
        invariant
            k <= 16,
            kernel.wf(),
            root == kernel.cur_root(),
            spec_token_root(user_token) == root,
            bytes@ == time_val_bytes(TimeVal { sec: now_us / 1_000_000, usec: now_us % 1_000_000 }),
            bytes@.len() == 16,
            forall|q: int| 0 <= q < k ==> user_access_ok(kernel.mem, root, #[trigger] ts_byte(ts, q), PTE_W),
            stores@ == Seq::new(k as nat, |q: int| (kernel.mem.spec_translate_va(root, ts_byte(ts, q)).unwrap(), bytes@[q])),
        decreases 16 - k,
    {
        let va = ts.wrapping_add(k);
        assert(va == ts_byte(ts, k as int));
        match translated_refmut(&kernel.mem, user_token, va) {
            Ok(pa) => {
                stores.push((pa, bytes[k as usize]));
                proof {
                    assert(stores@ =~= Seq::new((k + 1) as nat, |q: int| (kernel.mem.spec_translate_va(root, ts_byte(ts, q)).unwrap(), bytes@[q])));
                }
            },
            Err(_) => {
                proof {
                    assert(!user_access_ok(kernel.mem, root, ts_byte(ts, k as int), PTE_W));
                }
                return (-1, Vec::new());
            },
        }
        k = k + 1;
    }
    proof {
        assert(stores@ =~= time_write(kernel.mem, root, ts, now_us));
    }
    (0, stores)
}

/// The rule by which `sys_trace` reads and writes user bytes: an access with
/// the permission bit `bit` is allowed exactly when the walk finds an entry
/// that is valid, user-accessible and has `bit`, whatever its other bits.
pub proof fn law_user_access_rule(mem: PhysMemory, root: u64, va: u64, bit: u8)
    ensures
        user_access_ok(mem, root, va, bit) <==> (mem.spec_translate(root, (va % 0x80_0000_0000) / 4096) matches Some(pte)
            && pte.flags & 1u8 != 0 && pte.flags & 16u8 != 0 && pte.flags & bit != 0),
{
}

/// A task that has made no system call yet reports a count of 0 for every
/// call.
pub proof fn law_fresh_task_counts_nothing(u: TaskControlBlock, k: u64)
    requires
        u.syscall_times@.len() == 0,
    ensures
        syscall_count(u, k) == 0,
{
}

} // verus!
