use os::loader::{AppImage, Segment};
use os::memory_set::{MAP_PERM_R, MAP_PERM_X};
use os::page_table::{PTE_R, PTE_U, PTE_V, PTE_W};
use os::task::Kernel;
use os::token_mm;
use os::trace::{self, translated_ref, translated_refmut, TraceOutcome};

fn image(name: &str, start_va: u64, end_va: u64, entry: u64) -> AppImage {
    AppImage {
        name: name.as_bytes().to_vec(),
        segments: vec![Segment { start_va, end_va, perm: MAP_PERM_R | MAP_PERM_X }],
        entry,
    }
}

/// A running initial process loaded from a two-page program, with
/// `frames` physical frames in all.
fn boot_with(frames: u64) -> Kernel {
    let apps = vec![image("init", 0x1000, 0x3000, 0x1000)];
    let mut k = Kernel::new(0x80000, 0x80000 + frames, apps);
    assert_eq!(k.create_task(0), 0);
    assert_eq!(k.fetch_task(), Some(0));
    k
}

fn boot() -> Kernel {
    boot_with(0x400)
}

fn free_frames(k: &Kernel) -> u64 {
    k.mem.frames.end - k.mem.frames.current + k.mem.frames.recycled.len() as u64
}

fn root(k: &Kernel) -> u64 {
    k.tasks[0].memory_set.page_table.root_ppn
}

fn valid(k: &Kernel, vpn: u64) -> bool {
    k.mem.translate(root(k), vpn).map_or(false, |e| e.is_valid())
}

#[test]
fn token_mmap_maps_each_page_as_an_area() {
    let mut k = boot();
    let before = free_frames(&k);
    assert_eq!(token_mm::sys_mmap(&mut k, 0x1000_0000, 0x1800, 3), 0);
    assert_eq!(free_frames(&k), before - 2);
    for vpn in [0x10000u64, 0x10001] {
        let e = k.mem.translate(root(&k), vpn).unwrap();
        assert_eq!(e.flags, PTE_V | PTE_R | PTE_W | PTE_U);
    }
    // the new areas come after the task's own
    let areas: Vec<(u64, u64)> = k.tasks[0].memory_set.areas.iter().map(|a| (a.start_vpn, a.end_vpn)).collect();
    assert_eq!(areas.len(), 6);
    assert_eq!(areas[4..].to_vec(), vec![(0x10000, 0x10001), (0x10001, 0x10002)]);
    assert!(valid(&k, 1));
}

#[test]
fn token_mmap_rejects_bad_requests() {
    let mut k = boot();
    let before = free_frames(&k);
    assert_eq!(token_mm::sys_mmap(&mut k, 0x1000_0800, 0x1000, 3), -1);
    assert_eq!(token_mm::sys_mmap(&mut k, 0x1000_0000, 0x1000, 0), -1);
    assert_eq!(token_mm::sys_mmap(&mut k, 0x1000_0000, 0x1000, 9), -1);
    // a page already mapped, and a page whose last-level table exists
    assert_eq!(token_mm::sys_mmap(&mut k, 0x2000, 0x1000, 3), -1);
    assert_eq!(token_mm::sys_mmap(&mut k, 0x9000, 0x1000, 3), -1);
    assert_eq!(free_frames(&k), before);
    assert_eq!(k.tasks[0].memory_set.areas.len(), 4);
}

#[test]
fn token_mmap_refuses_range_past_address_space() {
    let mut k = boot();
    let before = free_frames(&k);
    // the range would run past page 0x7ff_ffff
    assert_eq!(token_mm::sys_mmap(&mut k, 0x7f_ffff_f000, 0x2000, 3), -1);
    assert_eq!(token_mm::sys_mmap(&mut k, 0x1000_0000, u64::MAX - 0x1000, 3), -1);
    assert_eq!(free_frames(&k), before);
    assert_eq!(k.tasks[0].memory_set.areas.len(), 4);
}

#[test]
fn token_mmap_of_nothing_changes_nothing() {
    let mut k = boot();
    let leaves = k.mem.leaf_tables.len();
    assert_eq!(token_mm::sys_mmap(&mut k, 0x1000_0000, 0, 3), 0);
    assert_eq!(k.mem.leaf_tables.len(), leaves);
    assert_eq!(k.tasks[0].memory_set.areas.len(), 4);
}

#[test]
fn token_munmap_cuts_range_at_address_space_end() {
    let mut k = boot();
    let before = free_frames(&k);
    // from the trap-context page on, far past the last page
    assert_eq!(token_mm::sys_munmap(&mut k, 0x7f_ffff_e000, u64::MAX - 0x1000), 0);
    assert!(!valid(&k, 0x7ff_fffe));
    assert_eq!(free_frames(&k), before + 1);
}

#[test]
fn token_mmap_out_of_frames_keeps_areas() {
    // six frames for the initial process, two left over
    let mut k = boot_with(8);
    assert_eq!(token_mm::sys_mmap(&mut k, 0x1000_0000, 0x3000, 1), -1);
    assert_eq!(free_frames(&k), 0);
    assert!(valid(&k, 0x10000));
    assert!(valid(&k, 0x10001));
    assert!(!valid(&k, 0x10002));
    assert_eq!(k.tasks[0].memory_set.areas.len(), 4);
}

#[test]
fn token_munmap_rejects_misaligned_start() {
    let mut k = boot();
    assert_eq!(token_mm::sys_munmap(&mut k, 0x1001, 0x1000), -1);
    assert_eq!(k.tasks[0].memory_set.areas.len(), 4);
}

#[test]
fn token_munmap_of_unwalkable_range_changes_nothing() {
    let mut k = boot();
    assert_eq!(token_mm::sys_munmap(&mut k, 0x2000_0000, 0x3000), 0);
    assert_eq!(k.tasks[0].memory_set.areas.len(), 4);
}

#[test]
fn token_munmap_clears_mapped_pages_and_frees_frames() {
    let mut k = boot();
    let before = free_frames(&k);
    assert_eq!(token_mm::sys_munmap(&mut k, 0x1000, 0x2000), 0);
    assert!(!valid(&k, 1));
    assert!(!valid(&k, 2));
    assert!(valid(&k, 4));
    assert_eq!(free_frames(&k), before + 2);
    assert_eq!(k.tasks[0].memory_set.areas.len(), 4);
}

#[test]
fn token_munmap_skips_unmapped_pages_of_the_range() {
    let mut k = boot();
    let before = free_frames(&k);
    // the guard page 3 is not mapped; pages 2, 4 and 5 are
    assert_eq!(token_mm::sys_munmap(&mut k, 0x2000, 0x4000), 0);
    for vpn in 2..6 {
        assert!(!valid(&k, vpn));
    }
    assert!(valid(&k, 1));
    assert_eq!(free_frames(&k), before + 3);
}

#[test]
fn token_munmap_undoes_token_mmap() {
    let mut k = boot();
    let before = free_frames(&k);
    assert_eq!(token_mm::sys_mmap(&mut k, 0x1000_0000, 0x2000, 3), 0);
    assert_eq!(token_mm::sys_munmap(&mut k, 0x1000_0000, 0x2000), 0);
    assert_eq!(free_frames(&k), before);
    assert!(!valid(&k, 0x10000));
    assert!(!valid(&k, 0x10001));
}

#[test]
fn trace_reads_user_byte() {
    let k = boot();
    let pa = k.mem.translate_va(root(&k), 0x1234).unwrap();
    assert_eq!(trace::sys_trace(&k, 0, 0x1234, 0), TraceOutcome::ReadByte(pa));
    let e = k.mem.translate(root(&k), 1).unwrap();
    assert_eq!(pa, e.ppn * 4096 + 0x234);
}

#[test]
fn trace_read_needs_user_readable_page() {
    let k = boot();
    // guard page, then the trap-context page, which the user cannot reach
    assert_eq!(trace::sys_trace(&k, 0, 0x3000, 0), TraceOutcome::Done(-1));
    assert_eq!(trace::sys_trace(&k, 0, 0x7f_ffff_e000, 0), TraceOutcome::Done(-1));
}

#[test]
fn trace_writes_low_byte_to_user_page() {
    let k = boot();
    let pa = k.mem.translate_va(root(&k), 0x4010).unwrap();
    assert_eq!(trace::sys_trace(&k, 1, 0x4010, 0x1ff), TraceOutcome::WriteByte(pa, 0xff));
}

#[test]
fn trace_write_needs_writable_page() {
    let k = boot();
    assert_eq!(trace::sys_trace(&k, 1, 0x1000, 7), TraceOutcome::Done(-1));
}

#[test]
fn trace_counts_system_calls() {
    let mut k = boot();
    k.record_syscall(64);
    k.record_syscall(64);
    k.record_syscall(93);
    assert_eq!(trace::sys_trace(&k, 2, 64, 0), TraceOutcome::Done(2));
    assert_eq!(trace::sys_trace(&k, 2, 93, 0), TraceOutcome::Done(1));
    assert_eq!(trace::sys_trace(&k, 2, 65, 0), TraceOutcome::Done(0));
    assert_eq!(k.get_syscall_counts(64), 2);
}

#[test]
fn trace_rejects_unknown_request() {
    let k = boot();
    assert_eq!(trace::sys_trace(&k, 3, 0x1000, 0), TraceOutcome::Done(-1));
    assert_eq!(trace::sys_trace(&k, 99, 0, 0), TraceOutcome::Done(-1));
}

#[test]
fn translated_refs_check_permissions() {
    let k = boot();
    let token = k.current_user_token();
    let pa = k.mem.translate_va(root(&k), 0x1008).unwrap();
    assert_eq!(translated_ref(&k.mem, token, 0x1008), Ok(pa));
    assert_eq!(translated_refmut(&k.mem, token, 0x1008), Err(()));
    assert!(translated_refmut(&k.mem, token, 0x5000).is_ok());
    assert_eq!(translated_ref(&k.mem, token, 0x3000), Err(()));
}

#[test]
fn trace_get_time_writes_time_val() {
    let k = boot();
    let pa = k.mem.translate_va(root(&k), 0x4008).unwrap();
    let (r, stores) = trace::sys_get_time(&k, 0x4008, 0, 2_000_001);
    assert_eq!(r, 0);
    let bytes: Vec<u8> = [2u64.to_le_bytes(), 1u64.to_le_bytes()].concat();
    let expected: Vec<(u64, u8)> = (0..16u64).map(|i| (pa + i, bytes[i as usize])).collect();
    assert_eq!(stores, expected);
}

#[test]
fn trace_get_time_splits_time_val_across_pages() {
    let k = boot();
    let (r, stores) = trace::sys_get_time(&k, 0x4ff8, 0, 7_000_042);
    assert_eq!(r, 0);
    let bytes: Vec<u8> = [7u64.to_le_bytes(), 42u64.to_le_bytes()].concat();
    let expected: Vec<(u64, u8)> =
        (0..16u64).map(|i| (k.mem.translate_va(root(&k), 0x4ff8 + i).unwrap(), bytes[i as usize])).collect();
    assert_eq!(stores, expected);
    let second = k.mem.translate(root(&k), 5).unwrap().ppn;
    assert_eq!(stores[8].0, second * 4096);
}

#[test]
fn trace_get_time_needs_every_byte_writable() {
    let k = boot();
    // the second half would fall on the unmapped page above the stack
    assert_eq!(trace::sys_get_time(&k, 0x5ff8, 0, 1), (-1, vec![]));
}

#[test]
fn trace_get_time_rejects_null_or_unwritable() {
    let k = boot();
    assert_eq!(trace::sys_get_time(&k, 0, 0, 1), (-1, vec![]));
    assert_eq!(trace::sys_get_time(&k, 0x1000, 0, 1), (-1, vec![]));
    assert_eq!(trace::sys_get_time(&k, 0x3000, 0, 1), (-1, vec![]));
}
