use os::address::{ceil, floor, page_start, virt_addr};
use os::config::{BIG_STRIDE, PAGE_SIZE};
use os::loader::{bytes_equal, find_app, AppImage, Segment};
use os::memory_set::{MapArea, MemorySet, PageTable, MAP_PERM_R, MAP_PERM_U, MAP_PERM_W, MAP_PERM_X};
use os::page_table::{PageTableEntry, PhysMemory, PTE_R, PTE_U, PTE_V, PTE_W};
use os::scheduler::stride_lt;
use os::task::{Kernel, TaskStatus};
use os::user_access::translated_byte_buffer;

fn image(name: &str, entry: u64) -> AppImage {
    AppImage {
        name: name.as_bytes().to_vec(),
        segments: vec![Segment { start_va: 0x1000, end_va: 0x2000, perm: MAP_PERM_R | MAP_PERM_X }],
        entry,
    }
}

#[test]
fn addresses_wrap_to_39_bits_and_round_to_pages() {
    assert_eq!(virt_addr((1u64 << 39) + 5), 5);
    assert_eq!(virt_addr(0x7f_ffff_ffff), 0x7f_ffff_ffff);
    assert_eq!(floor(0x1fff), 1);
    assert_eq!(floor(0x2000), 2);
    assert_eq!(ceil(0x1000), 1);
    assert_eq!(ceil(0x1001), 2);
    assert_eq!(ceil(0), 0);
    assert_eq!(page_start(3), 0x3000);
}

#[test]
fn token_names_the_root_frame() {
    let pt = PageTable { root_ppn: 0x80123 };
    let token = pt.token();
    assert_eq!(token, (8u64 << 60) | 0x80123);
    assert_eq!(PageTable::from_token(token).root_ppn, 0x80123);
    let ms = MemorySet::from_token(token);
    assert_eq!(ms.page_table.root_ppn, 0x80123);
    assert!(ms.areas.is_empty());
    assert_eq!(ms.token(), token);
}

#[test]
fn map_then_unmap_frame() {
    let mut mem = PhysMemory::new(0x100, 0x110);
    let root = mem.new_root();
    assert_eq!(root, 0x100);
    assert!(mem.translate(root, 5).is_none());
    let ppn = mem.map_framed(root, 5, MAP_PERM_R | MAP_PERM_U);
    assert_eq!(ppn, 0x101);
    assert_eq!(mem.translate(root, 5), Some(PageTableEntry { ppn, flags: PTE_V | PTE_R | PTE_U }));
    assert_eq!(mem.translate_va(root, 0x5123), Some(ppn * PAGE_SIZE + 0x123));
    // a page of the same last-level table reads as an empty entry
    assert_eq!(mem.translate(root, 6), Some(PageTableEntry::empty()));
    assert_eq!(mem.unmap_framed(root, 5), ppn);
    assert_eq!(mem.translate(root, 5), Some(PageTableEntry::empty()));
    // the frame given back is the next one handed out
    assert_eq!(mem.map_framed(root, 7, MAP_PERM_R | MAP_PERM_W | MAP_PERM_U), ppn);
}

#[test]
fn memory_set_unmap_clears_one_page_of_an_area() {
    let mut mem = PhysMemory::new(0x100, 0x110);
    let mut ms = MemorySet::new_bare(&mut mem);
    ms.insert_framed_area(&mut mem, 0x1000, 0x3000, MAP_PERM_R | MAP_PERM_W | MAP_PERM_U);
    assert_eq!(ms.areas.len(), 1);
    let root = ms.page_table.root_ppn;
    let e = ms.translate(&mem, 2).unwrap();
    assert_eq!(e.flags, PTE_V | PTE_R | PTE_W | PTE_U);
    let free = mem.frames.end - mem.frames.current + mem.frames.recycled.len() as u64;
    ms.unmap(&mut mem, 1);
    assert!(!mem.translate(root, 1).unwrap().is_valid());
    assert!(mem.translate(root, 2).unwrap().is_valid());
    assert_eq!(mem.frames.recycled.len() as u64 + mem.frames.end - mem.frames.current, free + 1);
    // a page outside every area is left alone
    ms.unmap(&mut mem, 9);
    assert!(mem.translate(root, 2).unwrap().is_valid());
    assert_eq!(ms.areas.len(), 1);
}

#[test]
fn map_area_covers_whole_pages() {
    let a = MapArea::new(0x1800, 0x3001, MAP_PERM_R);
    assert_eq!((a.start_vpn, a.end_vpn), (1, 4));
    assert!(a.contains(1));
    assert!(a.contains(3));
    assert!(!a.contains(4));
}

#[test]
fn byte_buffer_splits_at_page_boundary() {
    let mut mem = PhysMemory::new(0x100, 0x110);
    let mut ms = MemorySet::new_bare(&mut mem);
    ms.insert_framed_area(&mut mem, 0x1000, 0x3000, MAP_PERM_R | MAP_PERM_W | MAP_PERM_U);
    let root = ms.page_table.root_ppn;
    let chunks = translated_byte_buffer(&mem, ms.token(), 0x1ff0, 0x20);
    let first = mem.translate_va(root, 0x1ff0).unwrap();
    let second = mem.translate_va(root, 0x2000).unwrap();
    assert_eq!(chunks, vec![(first, 0x10), (second, 0x10)]);
    let one = translated_byte_buffer(&mem, ms.token(), 0x1100, 0x40);
    assert_eq!(one, vec![(mem.translate_va(root, 0x1100).unwrap(), 0x40)]);
    assert!(translated_byte_buffer(&mem, ms.token(), 0x1100, 0).is_empty());
}

#[test]
fn apps_are_found_by_exact_name() {
    let apps = vec![image("ch5b_initproc", 0x1000), image("ch5b_user_shell", 0x1000), image("ch5b_user", 0x1000)];
    assert_eq!(find_app(&apps, b"ch5b_user_shell"), Some(1));
    assert_eq!(find_app(&apps, b"ch5b_user"), Some(2));
    assert_eq!(find_app(&apps, b"ch5b"), None);
    assert_eq!(find_app(&apps, b""), None);
    assert!(bytes_equal(&b"abc".to_vec(), b"abc"));
    assert!(!bytes_equal(&b"abc".to_vec(), b"abd"));
    assert!(!bytes_equal(&b"abc".to_vec(), b"ab"));
}

#[test]
fn stride_order_survives_wrap_around() {
    // a stride that has grown past 2^64 still comes after one that has not
    assert!(stride_lt(u64::MAX - 5, 4));
    assert!(!stride_lt(4, u64::MAX - 5));
    assert!(stride_lt(1, 2));
    assert!(!stride_lt(2, 2));
    assert!(!stride_lt(2, 1));
}

#[test]
fn fetch_task_picks_smallest_stride_and_advances_it() {
    let apps = vec![image("a", 0x1000), image("b", 0x1000)];
    let mut k = Kernel::new(0x80000, 0x80100, apps);
    assert_eq!(k.fetch_task(), None);
    assert_eq!(k.create_task(0), 0);
    assert_eq!(k.create_task(1), 1);
    // both strides are 0: the first queued wins
    assert_eq!(k.fetch_task(), Some(0));
    assert_eq!(k.tasks[0].stride, BIG_STRIDE / 16);
    assert_eq!(k.tasks[0].status, TaskStatus::Running);
    assert_eq!(k.ready_queue, vec![1]);
    k.suspend_current();
    assert_eq!(k.fetch_task(), Some(1));
    k.set_current_priority(2);
    k.suspend_current();
    // 0 has stride BIG_STRIDE / 16, 1 has BIG_STRIDE / 16 as well; 0 is queued first
    assert_eq!(k.fetch_task(), Some(0));
    k.suspend_current();
    assert_eq!(k.fetch_task(), Some(1));
    assert_eq!(k.tasks[1].stride, BIG_STRIDE / 16 + BIG_STRIDE / 2);
}

#[test]
fn fetch_task_wraps_stride() {
    let apps = vec![image("a", 0x1000)];
    let mut k = Kernel::new(0x80000, 0x80100, apps);
    assert_eq!(k.create_task(0), 0);
    k.tasks[0].stride = u64::MAX - 10;
    assert_eq!(k.fetch_task(), Some(0));
    assert_eq!(k.tasks[0].stride, BIG_STRIDE / 16 - 11);
}

#[test]
fn fetch_task_orders_strides_across_wrap() {
    let apps = vec![image("a", 0x1000), image("b", 0x1000)];
    let mut k = Kernel::new(0x80000, 0x80100, apps);
    assert_eq!(k.create_task(0), 0);
    assert_eq!(k.create_task(1), 1);
    // task 0 has wrapped past 2^64 and is ahead of task 1
    k.tasks[0].stride = 5;
    k.tasks[1].stride = u64::MAX - 10;
    assert_eq!(k.fetch_task(), Some(1));
    assert_eq!(k.ready_queue, vec![0]);
}
