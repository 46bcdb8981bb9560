use os::config::{DEFAULT_PRIORITY, MAXVA, PAGE_SIZE};
use os::loader::{AppImage, Segment};
use os::memory_set::{MAP_PERM_R, MAP_PERM_X};
use os::page_table::{PTE_R, PTE_U, PTE_V, PTE_W, PTE_X};
use os::process::{
    sys_exec, sys_exit, sys_fork, sys_get_time, sys_getpid, sys_mmap, sys_munmap, sys_sbrk,
    sys_set_priority, sys_spawn, sys_waitpid, sys_yield, TimeVal,
};
use os::task::{Kernel, TaskStatus};

const FRAMES_START: u64 = 0x80000;
const FRAMES_END: u64 = 0x80400;

fn image(name: &str, start_va: u64, end_va: u64, entry: u64) -> AppImage {
    AppImage {
        name: name.as_bytes().to_vec(),
        segments: vec![Segment { start_va, end_va, perm: MAP_PERM_R | MAP_PERM_X }],
        entry,
    }
}

/// A kernel with two applications, "init" (two code pages) and "hello" (one
/// code page), whose initial process (pid 0, running "init") is running.
fn boot() -> Kernel {
    let apps = vec![image("init", 0x1000, 0x3000, 0x1000), image("hello", 0x1000, 0x2000, 0x1800)];
    let mut k = Kernel::new(FRAMES_START, FRAMES_END, apps);
    assert_eq!(k.create_task(0), 0);
    assert_eq!(k.fetch_task(), Some(0));
    k
}

fn free_frames(k: &Kernel) -> u64 {
    k.mem.frames.end - k.mem.frames.current + k.mem.frames.recycled.len() as u64
}

fn index_of(k: &Kernel, pid: usize) -> usize {
    k.tasks.iter().position(|t| t.pid == pid).unwrap()
}

fn cur(k: &Kernel) -> usize {
    index_of(k, k.current.unwrap())
}

fn root_of(k: &Kernel, pid: usize) -> u64 {
    k.tasks[index_of(k, pid)].memory_set.page_table.root_ppn
}

fn le(x: u64) -> Vec<u8> {
    x.to_le_bytes().to_vec()
}

#[test]
fn boot_loads_initial_process() {
    let k = boot();
    let t = &k.tasks[0];
    assert_eq!(t.pid, 0);
    assert_eq!(t.parent, None);
    assert_eq!(t.status, TaskStatus::Running);
    assert_eq!(t.trap_pc, 0x1000);
    // two code pages, a guard page, then a two-page stack
    assert_eq!(t.trap_sp, 0x6000);
    assert_eq!(t.heap_bottom, 0x6000);
    assert_eq!(t.program_brk, 0x6000);
    assert_eq!(t.priority, DEFAULT_PRIORITY);
    // root, two code pages, two stack pages, the trap-context page
    assert_eq!(free_frames(&k), FRAMES_END - FRAMES_START - 6);
    let code = k.mem.translate(t.memory_set.page_table.root_ppn, 1).unwrap();
    assert!(code.is_valid());
    assert_eq!(code.flags, PTE_V | PTE_R | PTE_X | PTE_U);
    // the guard page between code and stack stays unmapped
    assert!(!k.mem.translate(t.memory_set.page_table.root_ppn, 3).map_or(false, |e| e.is_valid()));
}

#[test]
fn getpid_returns_running_pid() {
    let mut k = boot();
    assert_eq!(sys_getpid(&k), 0);
    assert_eq!(sys_spawn(&mut k, b"hello"), 1);
    assert_eq!(sys_yield(&mut k), 0);
    assert_eq!(k.fetch_task(), Some(1));
    assert_eq!(sys_getpid(&k), 1);
}

#[test]
fn yield_requeues_running_task() {
    let mut k = boot();
    assert_eq!(sys_yield(&mut k), 0);
    assert_eq!(k.current, None);
    assert_eq!(k.ready_queue, vec![0]);
    assert_eq!(k.tasks[0].status, TaskStatus::Ready);
}

#[test]
fn fork_returns_child_pid_and_zero_to_child() {
    let mut k = boot();
    let i = cur(&k);
    k.tasks[i].trap_a0 = 77;
    let before = free_frames(&k);
    let (r, copies) = sys_fork(&mut k);
    assert_eq!(r, 1);
    // one copy per page of the parent's areas, in area order
    let pages: Vec<u64> = vec![1, 2, 4, 5, 0x7ff_fffe];
    let expected: Vec<(u64, u64)> = pages
        .iter()
        .map(|&v| (k.mem.translate(root_of(&k, 0), v).unwrap().ppn, k.mem.translate(root_of(&k, 1), v).unwrap().ppn))
        .collect();
    assert_eq!(copies, expected);
    let parent = &k.tasks[index_of(&k, 0)];
    let child = &k.tasks[index_of(&k, 1)];
    assert_eq!(parent.children, vec![1]);
    assert_eq!(parent.trap_a0, 77);
    assert_eq!(child.trap_a0, 0);
    assert_eq!(child.parent, Some(0));
    assert_eq!(child.trap_pc, parent.trap_pc);
    assert_eq!(child.memory_set.areas.len(), parent.memory_set.areas.len());
    assert_ne!(child.memory_set.page_table.root_ppn, parent.memory_set.page_table.root_ppn);
    assert_eq!(k.ready_queue, vec![1]);
    // a root and one frame per mapped page of the parent
    assert_eq!(before - free_frames(&k), 6);
    let e = k.mem.translate(root_of(&k, 1), 2).unwrap();
    assert!(e.is_valid());
    assert_eq!(e.flags, PTE_V | PTE_R | PTE_X | PTE_U);
    assert_ne!(e.ppn, k.mem.translate(root_of(&k, 0), 2).unwrap().ppn);
}

#[test]
fn spawn_known_app_creates_child() {
    let mut k = boot();
    assert_eq!(sys_spawn(&mut k, b"hello"), 1);
    let child = &k.tasks[index_of(&k, 1)];
    assert_eq!(child.parent, Some(0));
    assert_eq!(child.trap_pc, 0x1800);
    assert_eq!(child.status, TaskStatus::Ready);
    assert_eq!(k.tasks[index_of(&k, 0)].children, vec![1]);
    assert_eq!(k.ready_queue, vec![1]);
    assert_eq!(k.next_pid, 2);
    let code = k.mem.translate(root_of(&k, 1), 1).unwrap();
    assert_eq!(code.flags, PTE_V | PTE_R | PTE_X | PTE_U);
    let stack = k.mem.translate(root_of(&k, 1), 4).unwrap();
    assert_eq!(stack.flags, PTE_V | PTE_R | PTE_W | PTE_U);
}

#[test]
fn spawn_unknown_app_fails() {
    let mut k = boot();
    assert_eq!(sys_spawn(&mut k, b"nope"), -1);
    assert_eq!(k.tasks.len(), 1);
    assert!(k.ready_queue.is_empty());
    assert!(k.tasks[0].children.is_empty());
}

#[test]
fn exec_replaces_program() {
    let mut k = boot();
    let before = free_frames(&k);
    assert_eq!(sys_exec(&mut k, b"hello"), 0);
    let t = &k.tasks[cur(&k)];
    assert_eq!(t.pid, 0);
    assert_eq!(t.trap_pc, 0x1800);
    // one code page, guard page, two stack pages
    assert_eq!(t.trap_sp, 0x5000);
    // the old space (6 frames) is released, the new one takes 5
    assert_eq!(free_frames(&k), before + 1);
}

#[test]
fn exec_unknown_app_fails() {
    let mut k = boot();
    assert_eq!(sys_exec(&mut k, b"missing"), -1);
    assert_eq!(k.tasks[0].trap_pc, 0x1000);
}

#[test]
fn waitpid_without_matching_child_returns_minus_one() {
    let mut k = boot();
    assert_eq!(sys_waitpid(&mut k, -1, 0x4000), (-1, None));
    assert_eq!(sys_spawn(&mut k, b"hello"), 1);
    assert_eq!(sys_waitpid(&mut k, 5, 0x4000), (-1, None));
}

#[test]
fn waitpid_on_running_child_returns_minus_two() {
    let mut k = boot();
    assert_eq!(sys_spawn(&mut k, b"hello"), 1);
    assert_eq!(sys_waitpid(&mut k, -1, 0x4000), (-2, None));
    assert_eq!(sys_waitpid(&mut k, 1, 0x4000), (-2, None));
    assert_eq!(k.tasks.len(), 2);
}

#[test]
fn waitpid_reaps_exited_child_with_its_code() {
    let mut k = boot();
    assert_eq!(sys_spawn(&mut k, b"hello"), 1);
    assert_eq!(sys_yield(&mut k), 0);
    // the child has the smaller stride
    assert_eq!(k.fetch_task(), Some(1));
    assert!(!sys_exit(&mut k, 42));
    assert_eq!(k.tasks[index_of(&k, 1)].status, TaskStatus::Zombie);
    assert_eq!(k.fetch_task(), Some(0));
    let pa = k.mem.translate_va(root_of(&k, 0), 0x4000).unwrap();
    assert_eq!(sys_waitpid(&mut k, -1, 0x4000), (1, Some((pa, 42))));
    assert!(k.tasks.iter().all(|t| t.pid != 1));
    assert!(k.tasks[cur(&k)].children.is_empty());
    assert_eq!(sys_waitpid(&mut k, -1, 0x4000), (-1, None));
}

#[test]
fn exit_of_initial_process_shuts_down() {
    let mut k = boot();
    assert!(sys_exit(&mut k, 0));
    assert_eq!(k.current, Some(0));
    assert_eq!(k.tasks[0].status, TaskStatus::Running);
}

#[test]
fn exit_hands_children_to_initial_process() {
    let mut k = boot();
    assert_eq!(sys_spawn(&mut k, b"hello"), 1);
    assert_eq!(sys_yield(&mut k), 0);
    assert_eq!(k.fetch_task(), Some(1));
    assert_eq!(sys_spawn(&mut k, b"hello"), 2);
    let before = free_frames(&k);
    assert!(!sys_exit(&mut k, -3));
    let t1 = &k.tasks[index_of(&k, 1)];
    assert_eq!(t1.status, TaskStatus::Zombie);
    assert_eq!(t1.exit_code, -3);
    assert!(t1.children.is_empty());
    assert!(t1.memory_set.areas.is_empty());
    assert_eq!(k.tasks[index_of(&k, 2)].parent, Some(0));
    assert_eq!(k.tasks[index_of(&k, 0)].children, vec![1, 2]);
    assert_eq!(k.current, None);
    // the three data pages of "hello" and its trap-context page are freed
    assert_eq!(free_frames(&k), before + 4);
}

#[test]
fn set_priority_rejects_below_two() {
    let mut k = boot();
    assert_eq!(sys_set_priority(&mut k, 1), -1);
    assert_eq!(sys_set_priority(&mut k, 0), -1);
    assert_eq!(sys_set_priority(&mut k, -7), -1);
    assert_eq!(k.tasks[0].priority, DEFAULT_PRIORITY);
}

#[test]
fn set_priority_accepts_two_and_more() {
    let mut k = boot();
    assert_eq!(sys_set_priority(&mut k, 2), 2);
    assert_eq!(k.tasks[0].priority, 2);
    assert_eq!(sys_set_priority(&mut k, 1000), 1000);
    assert_eq!(k.tasks[0].priority, 1000);
}

#[test]
fn sbrk_zero_returns_current_break() {
    let mut k = boot();
    assert_eq!(sys_sbrk(&mut k, 0), 0x6000);
    assert_eq!(k.tasks[0].program_brk, 0x6000);
}

#[test]
fn sbrk_grows_and_shrinks_heap() {
    let mut k = boot();
    let root = root_of(&k, 0);
    let before = free_frames(&k);
    assert_eq!(sys_sbrk(&mut k, 4096), 0x6000);
    assert_eq!(k.tasks[0].program_brk, 0x7000);
    let e = k.mem.translate(root, 6).unwrap();
    assert!(e.is_valid());
    assert_eq!(e.flags, PTE_V | PTE_R | PTE_W | PTE_U);
    assert_eq!(free_frames(&k), before - 1);
    assert_eq!(sys_sbrk(&mut k, 10), 0x7000);
    assert_eq!(k.tasks[0].program_brk, 0x700a);
    assert_eq!(sys_sbrk(&mut k, -4106), 0x700a);
    assert_eq!(k.tasks[0].program_brk, 0x6000);
    assert!(!k.mem.translate(root, 6).map_or(false, |e| e.is_valid()));
    assert_eq!(free_frames(&k), before);
}

#[test]
fn sbrk_below_heap_bottom_fails() {
    let mut k = boot();
    assert_eq!(sys_sbrk(&mut k, -1), -1);
    assert_eq!(k.tasks[0].program_brk, 0x6000);
}

#[test]
fn mmap_maps_fresh_pages() {
    let mut k = boot();
    let root = root_of(&k, 0);
    let before = free_frames(&k);
    assert_eq!(sys_mmap(&mut k, 0x1000_0000, 0x2000, 3), 0);
    for vpn in [0x10000u64, 0x10001] {
        let e = k.mem.translate(root, vpn).unwrap();
        assert!(e.is_valid());
        assert_eq!(e.flags, PTE_V | PTE_R | PTE_W | PTE_U);
    }
    assert!(!k.mem.translate(root, 0x10002).map_or(false, |e| e.is_valid()));
    assert_eq!(free_frames(&k), before - 2);
    let last = k.tasks[0].memory_set.areas.last().unwrap();
    assert_eq!((last.start_vpn, last.end_vpn), (0x10000, 0x10002));
}

#[test]
fn mmap_rounds_length_up_to_pages() {
    let mut k = boot();
    let before = free_frames(&k);
    assert_eq!(sys_mmap(&mut k, 0x2000_0000, 1, 1), 0);
    assert_eq!(free_frames(&k), before - 1);
    assert_eq!(sys_mmap(&mut k, 0x3000_0000, PAGE_SIZE + 1, 4), 0);
    assert_eq!(free_frames(&k), before - 3);
    let e = k.mem.translate(root_of(&k, 0), 0x30001).unwrap();
    assert_eq!(e.flags, PTE_V | PTE_X | PTE_U);
}

#[test]
fn mmap_rejects_bad_requests() {
    let mut k = boot();
    let before = free_frames(&k);
    assert_eq!(sys_mmap(&mut k, 0x1000_0001, 0x1000, 3), -1);
    assert_eq!(sys_mmap(&mut k, 0x1000_0000, 0x1000, 0), -1);
    assert_eq!(sys_mmap(&mut k, 0x1000_0000, 0x1000, 8), -1);
    assert_eq!(sys_mmap(&mut k, 0x1000_0000, 0x1000, 0xf), -1);
    assert_eq!(sys_mmap(&mut k, MAXVA, 0x1000, 3), -1);
    // overlaps the code segment
    assert_eq!(sys_mmap(&mut k, 0x0, 0x2000, 3), -1);
    assert_eq!(free_frames(&k), before);
    assert_eq!(k.tasks[0].memory_set.areas.len(), 4);
}

#[test]
fn mmap_rejects_overlap_with_earlier_mapping() {
    let mut k = boot();
    assert_eq!(sys_mmap(&mut k, 0x1000_0000, 0x3000, 3), 0);
    assert_eq!(sys_mmap(&mut k, 0x1000_2000, 0x1000, 3), -1);
    assert_eq!(sys_mmap(&mut k, 0x0fff_f000, 0x2000, 3), -1);
    assert_eq!(sys_mmap(&mut k, 0x1000_3000, 0x1000, 3), 0);
}

#[test]
fn munmap_undoes_mmap() {
    let mut k = boot();
    let root = root_of(&k, 0);
    let before = free_frames(&k);
    assert_eq!(sys_mmap(&mut k, 0x1000_0000, 0x2000, 3), 0);
    assert_eq!(sys_munmap(&mut k, 0x1000_0000, 0x2000), 0);
    assert_eq!(free_frames(&k), before);
    assert!(!k.mem.translate(root, 0x10000).map_or(false, |e| e.is_valid()));
    assert!(!k.mem.translate(root, 0x10001).map_or(false, |e| e.is_valid()));
    // the range can be mapped again
    assert_eq!(sys_mmap(&mut k, 0x1000_0000, 0x2000, 1), 0);
}

#[test]
fn munmap_rejects_bad_or_unmapped_ranges() {
    let mut k = boot();
    assert_eq!(sys_mmap(&mut k, 0x1000_0000, 0x1000, 3), 0);
    let before = free_frames(&k);
    assert_eq!(sys_munmap(&mut k, 0x1000_0001, 0x1000), -1);
    assert_eq!(sys_munmap(&mut k, MAXVA, 0x1000), -1);
    assert_eq!(sys_munmap(&mut k, 0x2000_0000, 0x1000), -1);
    // only part of the range is mapped
    assert_eq!(sys_munmap(&mut k, 0x1000_0000, 0x2000), -1);
    assert_eq!(free_frames(&k), before);
    assert!(k.mem.translate(root_of(&k, 0), 0x10000).unwrap().is_valid());
}

#[test]
fn get_time_takes_seconds_and_microseconds_from_one_reading() {
    let k = boot();
    let (r, stores) = sys_get_time(&k, 0x4000, 0, 1_999_999);
    assert_eq!(r, 0);
    let bytes: Vec<u8> = stores.iter().map(|s| s.1).collect();
    assert_eq!(bytes, [le(1), le(999_999)].concat());
}

#[test]
fn munmap_clamps_any_length_at_maxva() {
    let mut k = boot();
    let start = MAXVA - PAGE_SIZE;
    let before = free_frames(&k);
    assert_eq!(sys_mmap(&mut k, start, PAGE_SIZE, 3), 0);
    assert_eq!(sys_munmap(&mut k, start, u64::MAX), 0);
    assert_eq!(free_frames(&k), before);
    assert!(!k.mem.translate(root_of(&k, 0), start / PAGE_SIZE).map_or(false, |e| e.is_valid()));
    assert_eq!(sys_munmap(&mut k, start, u64::MAX), -1);
}

#[test]
fn get_time_rejects_null_pointer() {
    let k = boot();
    let (r, stores) = sys_get_time(&k, 0, 0, 5);
    assert_eq!(r, -1);
    assert!(stores.is_empty());
}

#[test]
fn get_time_writes_time_val_across_pages() {
    let k = boot();
    let root = root_of(&k, 0);
    let ts = 0x4ff8;
    let (r, stores) = sys_get_time(&k, ts, 0, 3_250_042);
    assert_eq!(r, 0);
    let bytes: Vec<u8> = [le(3), le(250_042)].concat();
    let expected: Vec<(u64, u8)> =
        (0..16u64).map(|i| (k.mem.translate_va(root, ts + i).unwrap(), bytes[i as usize])).collect();
    assert_eq!(stores, expected);
    // the second half lands on the frame of the next page
    assert_eq!(stores[8].0 % PAGE_SIZE, 0);
}

#[test]
fn time_val_from_us_splits_seconds() {
    let t = TimeVal::from_us(1_234_567);
    assert_eq!((t.sec, t.usec), (1, 234_567));
    assert_eq!(t.to_bytes(), [le(1), le(234_567)].concat());
    let z = TimeVal::from_us(999_999);
    assert_eq!((z.sec, z.usec), (0, 999_999));
}

fn area_ranges(k: &Kernel) -> Vec<(u64, u64)> {
    k.tasks[cur(k)].memory_set.areas.iter().map(|a| (a.start_vpn, a.end_vpn)).collect()
}

#[test]
fn munmap_cuts_range_out_of_areas() {
    let mut k = boot();
    let before = area_ranges(&k);
    assert_eq!(sys_mmap(&mut k, 0x1000_0000, 0x3000, 3), 0);
    assert_eq!(sys_munmap(&mut k, 0x1000_1000, 0x1000), 0);
    let mut expected = before.clone();
    expected.push((0x10000, 0x10001));
    expected.push((0x10002, 0x10003));
    assert_eq!(area_ranges(&k), expected);
    assert_eq!(sys_munmap(&mut k, 0x1000_0000, 0x1000), 0);
    assert_eq!(sys_munmap(&mut k, 0x1000_2000, 0x1000), 0);
    assert_eq!(area_ranges(&k), before);
}

#[test]
fn fork_after_mmap_munmap_mmap() {
    let mut k = boot();
    assert_eq!(sys_mmap(&mut k, 0x1000_0000, 0x1000, 3), 0);
    assert_eq!(sys_munmap(&mut k, 0x1000_0000, 0x1000), 0);
    assert_eq!(sys_mmap(&mut k, 0x1000_0000, 0x1000, 3), 0);
    assert_eq!(area_ranges(&k).iter().filter(|r| r.0 == 0x10000).count(), 1);
    assert_eq!(sys_fork(&mut k).0, 1);
    assert!(k.mem.translate(root_of(&k, 1), 0x10000).unwrap().is_valid());
}
