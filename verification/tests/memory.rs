use os::config::{IDLE_PID, PAGE_SIZE, SYSCALL_MMAP, SYSCALL_MUNMAP, SYSCALL_SBRK};
use os::kernel::Kernel;
use os::mm::{MapArea, MemorySet, VirtAddr, MAP_PERM_R, MAP_PERM_U, MAP_PERM_W, MAP_PERM_X, PTE_V};
use os::process::{mmap_pages, munmap_pages, sys_mmap, sys_munmap, sys_sbrk};

fn area(start_vpn: usize, end_vpn: usize, perm: u8) -> MapArea {
    MapArea { start_vpn, end_vpn, perm }
}

/// An address space with the given areas, added in order.
fn space(areas: &[MapArea]) -> MemorySet {
    let mut ms = MemorySet::new_bare();
    for a in areas {
        ms.insert_framed_area(VirtAddr(a.start_vpn * PAGE_SIZE), VirtAddr(a.end_vpn * PAGE_SIZE), a.perm);
    }
    ms
}

fn areas_of(ms: &MemorySet) -> Vec<MapArea> {
    ms.areas().clone()
}

#[test]
fn mmap_maps_one_area_per_page() {
    let mut ms = space(&[]);
    assert_eq!(mmap_pages(&mut ms, 0x1000, 0x2000, 3), 0);
    assert_eq!(areas_of(&ms), vec![area(1, 2, 22), area(2, 3, 22)]);
}

#[test]
fn mmap_rounds_length_up_to_pages() {
    let mut ms = space(&[]);
    assert_eq!(mmap_pages(&mut ms, 0x10000, 1, 1), 0);
    assert_eq!(areas_of(&ms), vec![area(16, 17, MAP_PERM_U | MAP_PERM_R)]);
    let mut other = space(&[]);
    assert_eq!(mmap_pages(&mut other, 0x10000, 0x1001, 1), 0);
    assert_eq!(other.areas().len(), 2);
}

#[test]
fn mmap_zero_length_maps_nothing() {
    let mut ms = space(&[]);
    assert_eq!(mmap_pages(&mut ms, 0x3000, 0, 7), 0);
    assert!(ms.areas().is_empty());
}

#[test]
fn mmap_permissions_follow_port_bits() {
    let mut ms = space(&[]);
    assert_eq!(mmap_pages(&mut ms, 0x1000, 0x1000, 7), 0);
    assert_eq!(ms.areas()[0].perm, MAP_PERM_U | MAP_PERM_R | MAP_PERM_W | MAP_PERM_X);
    assert_eq!(ms.areas()[0].perm, 30);
    assert_eq!(mmap_pages(&mut ms, 0x2000, 0x1000, 2), 0);
    assert_eq!(ms.areas()[1].perm, MAP_PERM_U | MAP_PERM_W);
    assert_eq!(mmap_pages(&mut ms, 0x3000, 0x1000, 4), 0);
    assert_eq!(ms.areas()[2].perm, MAP_PERM_U | MAP_PERM_X);
}

#[test]
fn mmap_rejects_unaligned_start() {
    let mut ms = space(&[]);
    assert_eq!(mmap_pages(&mut ms, 0x1001, 0x1000, 3), -1);
    assert!(ms.areas().is_empty());
}

#[test]
fn mmap_rejects_bad_port() {
    let mut ms = space(&[]);
    assert_eq!(mmap_pages(&mut ms, 0x1000, 0x1000, 0), -1);
    assert_eq!(mmap_pages(&mut ms, 0x1000, 0x1000, 8), -1);
    assert_eq!(mmap_pages(&mut ms, 0x1000, 0x1000, 9), -1);
    assert!(ms.areas().is_empty());
}

#[test]
fn mmap_over_a_mapped_page_fails_after_mapping_the_pages_before_it() {
    let mut ms = space(&[area(3, 5, 6)]);
    assert_eq!(mmap_pages(&mut ms, 0x1000, 0x4000, 3), -1);
    assert_eq!(areas_of(&ms), vec![area(3, 5, 6), area(1, 2, 22), area(2, 3, 22)]);
}

#[test]
fn mmap_twice_on_the_same_page_fails() {
    let mut ms = space(&[]);
    assert_eq!(mmap_pages(&mut ms, 0x8000, 0x1000, 1), 0);
    assert_eq!(mmap_pages(&mut ms, 0x8000, 0x1000, 1), -1);
    assert_eq!(ms.areas().len(), 1);
}

#[test]
fn mmap_keeps_the_low_39_bits_of_addresses() {
    let mut ms = space(&[]);
    assert_eq!(mmap_pages(&mut ms, (1usize << 39) + 0x5000, 0x1000, 1), 0);
    assert_eq!(areas_of(&ms), vec![area(5, 6, 18)]);
    assert_eq!(VirtAddr::from_usize((1usize << 39) + 0x5123).0, 0x5123);
}

#[test]
fn mmap_rounds_the_longest_length_without_overflow() {
    let mut ms = space(&[area(1, 2, 6)]);
    assert_eq!(mmap_pages(&mut ms, 0x1000, usize::MAX - (PAGE_SIZE - 1), 0), -1);
    assert_eq!(mmap_pages(&mut ms, 0x1001, usize::MAX - (PAGE_SIZE - 1), 1), -1);
    assert_eq!(areas_of(&ms), vec![area(1, 2, 6)]);
}

#[test]
fn munmap_undoes_mmap() {
    let mut ms = space(&[area(100, 104, 6)]);
    assert_eq!(mmap_pages(&mut ms, 0x1000, 0x3000, 3), 0);
    assert_eq!(ms.areas().len(), 4);
    assert_eq!(munmap_pages(&mut ms, 0x1000, 0x3000), 0);
    assert_eq!(areas_of(&ms), vec![area(100, 104, 6)]);
}

#[test]
fn munmap_rejects_unaligned_start() {
    let mut ms = space(&[area(1, 2, 18)]);
    assert_eq!(munmap_pages(&mut ms, 0x1800, 0x1000), -1);
    assert_eq!(areas_of(&ms), vec![area(1, 2, 18)]);
}

#[test]
fn munmap_of_an_unmapped_page_fails_but_unmaps_the_others() {
    let mut ms = space(&[]);
    assert_eq!(mmap_pages(&mut ms, 0x1000, 0x1000, 1), 0);
    assert_eq!(mmap_pages(&mut ms, 0x3000, 0x1000, 1), 0);
    assert_eq!(munmap_pages(&mut ms, 0x1000, 0x3000), -1);
    assert!(ms.areas().is_empty());
}

#[test]
fn munmap_removes_the_area_that_starts_at_the_page() {
    let mut ms = space(&[area(4, 8, 6), area(9, 10, 6)]);
    assert_eq!(munmap_pages(&mut ms, 0x4000, 0x1000), 0);
    assert_eq!(areas_of(&ms), vec![area(9, 10, 6)]);
}

#[test]
fn munmap_inside_an_area_keeps_it() {
    let mut ms = space(&[area(4, 8, 6)]);
    assert_eq!(munmap_pages(&mut ms, 0x5000, 0x1000), 0);
    assert_eq!(areas_of(&ms), vec![area(4, 8, 6)]);
}

#[test]
fn translate_finds_mapped_pages_only() {
    let ms = space(&[area(4, 8, MAP_PERM_U | MAP_PERM_R), area(9, 10, MAP_PERM_W)]);
    let pte = ms.translate(5).unwrap();
    assert!(pte.is_valid());
    assert_eq!(pte.flags, 19);
    assert_eq!(ms.translate(9).unwrap().flags, MAP_PERM_W | PTE_V);
    assert!(ms.translate(8).is_none());
    assert!(ms.translate(3).is_none());
}

#[test]
fn virt_addr_floor_and_ceil() {
    assert_eq!(VirtAddr(0x1fff).floor(), 1);
    assert_eq!(VirtAddr(0x1fff).ceil(), 2);
    assert_eq!(VirtAddr(0x2000).ceil(), 2);
    assert_eq!(VirtAddr(0).ceil(), 0);
    assert_eq!(VirtAddr(usize::MAX).ceil(), usize::MAX / PAGE_SIZE + 1);
    assert_eq!(VirtAddr::from_usize(usize::MAX).0, 0x7f_ffff_ffff);
}

#[test]
fn memory_set_insert_and_remove() {
    let mut ms = MemorySet::new_bare();
    ms.insert_framed_area(VirtAddr(0x2000), VirtAddr(0x3fff), 18);
    assert_eq!(areas_of(&ms), vec![area(2, 4, 18)]);
    ms.remove_area_with_start_vpn(3);
    assert_eq!(ms.areas().len(), 1);
    ms.remove_area_with_start_vpn(2);
    assert!(ms.areas().is_empty());
    let copy = MemorySet::from_existed_user(&space(&[area(1, 3, 6)]));
    assert_eq!(areas_of(&copy), vec![area(1, 3, 6)]);
}

#[test]
fn recycle_data_pages_drops_every_area() {
    let mut ms = space(&[area(1, 3, 6), area(5, 6, 6)]);
    ms.recycle_data_pages();
    assert!(ms.areas().is_empty());
}

#[test]
fn shrink_and_append_resize_the_area_that_starts_at_the_page() {
    let mut ms = space(&[area(16, 18, 22), area(20, 21, 22)]);
    assert!(ms.shrink_to(VirtAddr(0x10000), VirtAddr(0x10800)));
    assert_eq!(areas_of(&ms)[0], area(16, 17, 22));
    assert!(ms.append_to(VirtAddr(0x10000), VirtAddr(0x13000)));
    assert_eq!(areas_of(&ms)[0], area(16, 19, 22));
    assert!(!ms.append_to(VirtAddr(0x30000), VirtAddr(0x31000)));
    assert!(!ms.shrink_to(VirtAddr(0x30000), VirtAddr(0x30000)));
}

const HEAP: usize = 0x10000;

/// A kernel whose first task runs with a text area and an empty heap area at `HEAP`.
fn heap_kernel(with_heap_area: bool) -> Kernel {
    let areas = if with_heap_area { vec![area(1, 2, 22), area(16, 16, 22)] } else { vec![area(1, 2, 22)] };
    let mut k = Kernel::new(space(&areas), HEAP);
    assert!(k.run_next(0));
    k
}

fn areas_of_current(k: &Kernel) -> Vec<MapArea> {
    areas_of(&k.task(IDLE_PID).unwrap().memory_set)
}

fn brk(k: &Kernel) -> usize {
    k.task(IDLE_PID).unwrap().program_brk
}

#[test]
fn sbrk_grows_and_shrinks_the_heap() {
    let mut k = heap_kernel(true);
    assert!(k.task(IDLE_PID).unwrap().can_change_brk(0x1800));
    assert_eq!(sys_sbrk(&mut k, 0x1800), 0x10000);
    assert_eq!(brk(&k), 0x11800);
    assert_eq!(areas_of_current(&k)[1], area(16, 18, 22));
    assert_eq!(sys_sbrk(&mut k, -0x1000), 0x11800);
    assert_eq!(brk(&k), 0x10800);
    assert_eq!(areas_of_current(&k)[1], area(16, 17, 22));
    assert_eq!(sys_sbrk(&mut k, 0), 0x10800);
    assert_eq!(brk(&k), 0x10800);
    assert_eq!(k.task(IDLE_PID).unwrap().syscall_times[SYSCALL_SBRK], 3);
}

#[test]
fn sbrk_below_heap_bottom_fails() {
    let mut k = heap_kernel(true);
    assert!(k.task(IDLE_PID).unwrap().can_change_brk(-1));
    assert_eq!(sys_sbrk(&mut k, -1), -1);
    assert_eq!(brk(&k), 0x10000);
    assert_eq!(areas_of_current(&k)[1], area(16, 16, 22));
}

#[test]
fn sbrk_without_heap_area_fails() {
    let mut k = heap_kernel(false);
    assert_eq!(sys_sbrk(&mut k, 0x1000), -1);
    assert_eq!(brk(&k), 0x10000);
}

#[test]
fn can_change_brk_refuses_growth_over_a_mapped_page() {
    let mut k = Kernel::new(space(&[area(16, 16, 22), area(17, 18, 6)]), HEAP);
    assert!(k.run_next(0));
    let t = k.task(IDLE_PID).unwrap();
    assert!(t.can_change_brk(0x1000));
    assert!(!t.can_change_brk(0x1001));
    assert!(t.can_change_brk(-0x1000));
}

#[test]
fn syscalls_on_memory_work_on_the_running_task() {
    let mut k = heap_kernel(true);
    assert_eq!(sys_mmap(&mut k, 0x2000, 0x2000, 3), 0);
    assert_eq!(areas_of_current(&k), vec![area(1, 2, 22), area(16, 16, 22), area(2, 3, 22), area(3, 4, 22)]);
    assert_eq!(sys_munmap(&mut k, 0x2000, 0x1000), 0);
    assert_eq!(sys_munmap(&mut k, 0x2000, 0x1000), -1);
    let t = k.task(IDLE_PID).unwrap();
    assert_eq!(t.syscall_times[SYSCALL_MMAP], 1);
    assert_eq!(t.syscall_times[SYSCALL_MUNMAP], 2);
}

fn disjoint(areas: &[MapArea]) -> bool {
    for i in 0..areas.len() {
        for j in i + 1..areas.len() {
            let (a, b) = (areas[i], areas[j]);
            if a.start_vpn.max(b.start_vpn) < a.end_vpn.min(b.end_vpn) {
                return false;
            }
        }
    }
    true
}

#[test]
fn mapped_areas_stay_disjoint() {
    let mut k = heap_kernel(true);
    assert_eq!(sys_mmap(&mut k, 0x2000, 0x3000, 3), 0);
    assert!(disjoint(&areas_of_current(&k)));
    assert_eq!(sys_mmap(&mut k, 0x3000, 0x3000, 3), -1);
    assert!(disjoint(&areas_of_current(&k)));
    assert_eq!(sys_munmap(&mut k, 0x3000, 0x1000), 0);
    assert!(disjoint(&areas_of_current(&k)));
    assert_eq!(sys_sbrk(&mut k, 0x2000), 0x10000);
    assert!(disjoint(&areas_of_current(&k)));
    assert_eq!(areas_of_current(&k).len(), 4);
}
