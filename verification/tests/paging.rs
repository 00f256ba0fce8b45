use kernel_rs::pmm::{MemmapEntry, Pmm, LIMINE_MEMMAP_USABLE};
use kernel_rs::vm::Vm;

const NX: u64 = 0x8000_0000_0000_0000;
const BOOT_PML4: u64 = 0x1000;
const HEAP_VA: u64 = 0x0100_0000;

/// 256 KiB of memory; frames 16..63 are usable, frames 1..3 hold the boot
/// tables PML4 -> PDPT -> PD.
fn system() -> Vm {
    let mut p = Pmm::new();
    let mut out = Vec::new();
    let entries = [MemmapEntry { base: 0x10000, length: 0x30000, typ: LIMINE_MEMMAP_USABLE }];
    p.pmm_init(&mut out, Some(0xFFFF_8000_0000_0000), Some(&entries));
    let mut vm = Vm::new(p, 0x40000 / 8);
    vm.write_word(0x1000, 0x2007);
    vm.write_word(0x2000, 0x3007);
    vm
}

#[test]
fn map_allocates_table_and_frame_with_prot_flags() {
    let mut vm = system();
    assert!(vm.vm_map_current(BOOT_PML4, HEAP_VA, 3));
    // PD entry 8 now points at the fresh page table in frame 16.
    assert_eq!(vm.read_word(0x3000 + 8 * 8), 0x10007);
    assert_eq!(vm.read_word(0x10000), 0x11000 | 0x7 | NX);
    assert_eq!(vm.demand_mapped(), 1);
    assert_eq!(vm.pmm().free_frames(), 46);
}

#[test]
fn map_is_idempotent() {
    let mut vm = system();
    assert!(vm.vm_map_current(BOOT_PML4, HEAP_VA, 3));
    assert!(vm.vm_map_current(BOOT_PML4, HEAP_VA, 7));
    assert_eq!(vm.read_word(0x10000), 0x11000 | 0x7 | NX);
    assert_eq!(vm.demand_mapped(), 1);
    assert_eq!(vm.pmm().free_frames(), 46);
}

#[test]
fn map_links_missing_upper_tables() {
    let mut vm = system();
    // PML4 entry 1 is not present: a PDPT, a PD and a PT are linked in.
    let va = 1u64 << 39;
    assert!(vm.vm_map_current(BOOT_PML4, va, 3));
    assert_eq!(vm.read_word(0x1000 + 8), 0x10007);
    assert_eq!(vm.read_word(0x10000), 0x11007);
    assert_eq!(vm.read_word(0x11000), 0x12007);
    assert_eq!(vm.read_word(0x12000), 0x13000 | 0x7 | NX);
    assert_eq!(vm.pmm().free_frames(), 44);
    assert!(vm.vm_map_current(BOOT_PML4, va, 3));
    assert_eq!(vm.pmm().free_frames(), 44);
}

#[test]
fn map_fails_only_when_frames_run_out() {
    let mut p = Pmm::new();
    let mut out = Vec::new();
    let entries = [MemmapEntry { base: 0x10000, length: 0x2000, typ: LIMINE_MEMMAP_USABLE }];
    p.pmm_init(&mut out, Some(0), Some(&entries));
    let mut vm = Vm::new(p, 0x40000 / 8);
    vm.write_word(0x1000, 0x2007);
    vm.write_word(0x2000, 0x3007);
    // two frames: the PDPT and the PD are linked, the PT cannot be had
    assert!(!vm.vm_map_current(BOOT_PML4, 1u64 << 39, 3));
    assert_eq!(vm.pmm().free_frames(), 0);
    assert_eq!(vm.read_word(0x1000 + 8), 0x10007);
    assert_eq!(vm.read_word(0x10000), 0x11007);
}

#[test]
fn protect_rewrites_flags_and_keeps_frame() {
    let mut vm = system();
    assert!(!vm.vm_protect_current(BOOT_PML4, HEAP_VA, 1));
    assert!(vm.vm_map_current(BOOT_PML4, HEAP_VA, 3));
    assert!(vm.vm_protect_current(BOOT_PML4, HEAP_VA, 1));
    assert_eq!(vm.read_word(0x10000), 0x11000 | 0x5 | NX);
    assert!(vm.vm_protect_current(BOOT_PML4, HEAP_VA, 7));
    assert_eq!(vm.read_word(0x10000), 0x11007);
}

#[test]
fn unmap_undoes_map() {
    let mut vm = system();
    assert!(vm.vm_map_current(BOOT_PML4, HEAP_VA, 3));
    assert!(vm.vm_unmap_current(BOOT_PML4, HEAP_VA));
    assert_eq!(vm.read_word(0x10000), 0);
    assert_eq!(vm.demand_mapped(), 0);
    // The data frame is back; the page table stays.
    assert_eq!(vm.pmm().free_frames(), 47);
    assert!(!vm.vm_unmap_current(BOOT_PML4, HEAP_VA));
}

#[test]
fn demand_map_maps_and_logs_low_pages() {
    let mut vm = system();
    let mut out = Vec::new();
    assert!(vm.try_demand_map(&mut out, BOOT_PML4, HEAP_VA + 0x123));
    assert_eq!(out, b"MM: demand map va=0x0000000001000000\n".to_vec());
    assert_eq!(vm.read_word(0x10000), 0x11000 | 0x7 | NX);
    assert_eq!(vm.demand_mapped(), 1);
    // A fault on a present page is a protection fault, not a demand fault.
    assert!(!vm.try_demand_map(&mut out, BOOT_PML4, HEAP_VA));
    assert_eq!(out.len(), 37);
}

#[test]
fn demand_map_exec_window_has_no_nx_and_no_log() {
    let mut vm = system();
    let mut out = Vec::new();
    assert!(vm.try_demand_map(&mut out, BOOT_PML4, 0x0140_0000));
    assert!(out.is_empty());
    assert_eq!(vm.read_word(0x3000 + 10 * 8), 0x10007);
    assert_eq!(vm.read_word(0x10000), 0x11007);
}

#[test]
fn demand_map_refuses_guard_zone_and_outside_window() {
    let mut vm = system();
    let mut out = Vec::new();
    assert!(!vm.try_demand_map(&mut out, BOOT_PML4, 0x0190_0000));
    assert!(!vm.try_demand_map(&mut out, BOOT_PML4, 0x0192_3FFF));
    assert!(!vm.try_demand_map(&mut out, BOOT_PML4, 0x0200_0000));
    assert!(!vm.try_demand_map(&mut out, BOOT_PML4, 0x00FF_F000));
    assert_eq!(vm.pmm().free_frames(), 48);
    // Just above a guard zone is ordinary stack.
    assert!(vm.try_demand_map(&mut out, BOOT_PML4, 0x0190_4000));
}

#[test]
fn demand_map_needs_a_ready_allocator() {
    let mut vm = Vm::new(Pmm::new(), 0x40000 / 8);
    vm.write_word(0x1000, 0x2007);
    vm.write_word(0x2000, 0x3007);
    let mut out = Vec::new();
    assert!(!vm.try_demand_map(&mut out, BOOT_PML4, HEAP_VA));
}

#[test]
fn get_page_returns_existing_or_fresh_frame() {
    let mut vm = system();
    assert_eq!(vm.as_get_page(BOOT_PML4, HEAP_VA), Some(0x11000));
    assert_eq!(vm.as_get_page(BOOT_PML4, HEAP_VA + 0x10), Some(0x11000));
    assert_eq!(vm.as_get_page(BOOT_PML4, HEAP_VA + 0x1000), Some(0x12000));
    assert_eq!(vm.demand_mapped(), 2);
    assert_eq!(vm.as_get_page(BOOT_PML4, 1u64 << 39), None);
}

#[test]
fn create_clones_kernel_half_with_private_user_tables() {
    let mut vm = system();
    vm.write_word(0x1000 + 511 * 8, 0xABC007);
    assert_eq!(vm.address_space_create(BOOT_PML4), Some(0x10000));
    assert_eq!(vm.read_word(0x10000), 0x11007);
    assert_eq!(vm.read_word(0x10000 + 511 * 8), 0xABC007);
    assert_eq!(vm.read_word(0x11000), 0x12007);
    assert_eq!(vm.pmm().free_frames(), 45);
}

#[test]
fn copyout_spans_pages_and_map_zeroed_maps_range() {
    let mut vm = system();
    let root = vm.address_space_create(BOOT_PML4).unwrap();
    assert!(vm.as_copyout(root, 0x0140_0FFE, &[1, 2, 3, 4]));
    // page table in frame 0x13000, data frames 0x14000 and 0x15000
    assert_eq!(vm.read_word(0x14FF8), 0x0201_0000_0000_0000);
    assert_eq!(vm.read_word(0x15000), 0x0403);
    assert_eq!(vm.demand_mapped(), 2);
    assert!(vm.as_map_zeroed(root, 0x0140_2000, 0x2000));
    assert_eq!(vm.demand_mapped(), 4);
    assert_eq!(vm.as_get_page(root, 0x0140_3FFF), Some(0x17000));
}

#[test]
fn fork_shares_frames_copy_on_write_and_break_copies() {
    let mut vm = system();
    assert!(vm.vm_map_current(BOOT_PML4, HEAP_VA, 3));
    vm.write_word(0x11000, 0xDEAD);
    let child = vm.address_space_fork(BOOT_PML4).unwrap();
    assert_eq!(child, 0x12000);
    let ro = 0x11000 | 0x5 | 0x200 | NX;
    assert_eq!(vm.read_word(0x10000), ro);
    assert_eq!(vm.read_word(0x15000), ro);
    assert_eq!(vm.read_word(0x14000 + 8 * 8), 0x15007);
    assert_eq!(vm.cow_count(0x11000), 1);
    // The child writes first: it gets a private copy.
    assert!(vm.cow_break(child, HEAP_VA));
    assert_eq!(vm.read_word(0x15000), 0x16000 | 0x7 | NX);
    assert_eq!(vm.read_word(0x16000), 0xDEAD);
    assert_eq!(vm.cow_count(0x11000), 0);
    // The parent is now the sole owner: its page just becomes writable.
    assert!(vm.cow_break(BOOT_PML4, HEAP_VA));
    assert_eq!(vm.read_word(0x10000), 0x11000 | 0x7 | NX);
    // A page that is not copy-on-write is not resolved here.
    assert!(!vm.cow_break(BOOT_PML4, HEAP_VA));
}

#[test]
fn release_returns_every_frame_of_a_forked_child() {
    let mut vm = system();
    assert!(vm.vm_map_current(BOOT_PML4, HEAP_VA, 3));
    let before = vm.pmm().free_frames();
    let child = vm.address_space_fork(BOOT_PML4).unwrap();
    assert!(vm.cow_break(child, HEAP_VA));
    assert_eq!(vm.pmm().free_frames(), before - 5);
    vm.address_space_release(child);
    assert_eq!(vm.pmm().free_frames(), before);
    // the parent's frame is still owned and mapped
    assert_eq!(vm.read_word(0x10000) & 0xFFF_F000, 0x11000);
}

#[test]
fn release_of_shared_leaf_only_drops_an_owner() {
    let mut vm = system();
    assert!(vm.vm_map_current(BOOT_PML4, HEAP_VA, 3));
    let child = vm.address_space_fork(BOOT_PML4).unwrap();
    let before = vm.pmm().free_frames();
    vm.address_space_release(child);
    // PML4, PDPT, PD and the child's page table come back; the shared leaf does not.
    assert_eq!(vm.pmm().free_frames(), before + 4);
    assert_eq!(vm.cow_count(0x11000), 0);
}

#[test]
fn mmio_window_links_tables_and_maps_uncached_pages() {
    let mut vm = system();
    assert_eq!(vm.mmio_map_4k(BOOT_PML4, 0xFEBC_1234), Some(0xFFFF_FF00_0000_0234));
    assert_eq!(vm.read_word(0x1000 + 0x1FE * 8), 0x10003);
    assert_eq!(vm.read_word(0x10000), 0x11003);
    assert_eq!(vm.read_word(0x11000), 0x12003);
    assert_eq!(vm.read_word(0x12000), 0xFEBC_1000 | 0x1B | NX);
    assert_eq!(vm.pmm().free_frames(), 45);
    assert_eq!(vm.mmio_map_region(BOOT_PML4, 0xFEBC_0000, 2), Some(0xFFFF_FF10_0000_0000));
    assert_eq!(vm.read_word(0x10000 + 0x40 * 8), 0x13003);
    assert_eq!(vm.read_word(0x14000), 0xFEBC_0000 | 0x1B | NX);
    assert_eq!(vm.read_word(0x14008), 0xFEBC_1000 | 0x1B | NX);
}

#[test]
fn mmio_map_is_all_or_nothing() {
    let mut p = Pmm::new();
    let mut out = Vec::new();
    let entries = [MemmapEntry { base: 0x10000, length: 0x2000, typ: LIMINE_MEMMAP_USABLE }];
    p.pmm_init(&mut out, Some(0), Some(&entries));
    let mut vm = Vm::new(p, 0x40000 / 8);
    vm.write_word(0x1000, 0x2007);
    assert_eq!(vm.mmio_map_4k(BOOT_PML4, 0xFEBC_0000), None);
    assert_eq!(vm.pmm().free_frames(), 2);
    assert_eq!(vm.read_word(0x1000 + 0x1FE * 8), 0);
}

#[test]
fn nx_and_paging_reports() {
    use_reports();
}

fn use_reports() {
    let mut out = Vec::new();
    assert_eq!(kernel_rs::vm::enable_nx(&mut out, 0x0000_0501), 0x0000_0D01);
    assert_eq!(out, b"MM: nx on\n".to_vec());
    let mut out = Vec::new();
    kernel_rs::vm::check_paging(&mut out, 0x8000_0011);
    kernel_rs::vm::check_paging(&mut out, 0x11);
    assert_eq!(out, b"MM: paging=on\nMM: paging=off\n".to_vec());
}

#[test]
fn vm_allocations_hand_out_zeroed_frames() {
    let mut vm = system();
    vm.write_word(0x10000 + 0x800, 0x1234);
    vm.write_word(0x11000 + 0xFF8, 0x5678);
    vm.write_word(0x12000, 0x9ABC);
    assert_eq!(vm.alloc_frame(), Some(0x10000));
    assert_eq!(vm.read_word(0x10000 + 0x800), 0);
    assert_eq!(vm.read_word(0x11000 + 0xFF8), 0x5678);
    assert_eq!(vm.alloc_frames_contig(2), Some(0x11000));
    assert_eq!(vm.read_word(0x11000 + 0xFF8), 0);
    assert_eq!(vm.read_word(0x12000), 0);
    assert_eq!(vm.pmm().free_frames(), 45);
    assert_eq!(vm.alloc_frames_contig(0), None);
    assert_eq!(vm.alloc_frames_contig(100), None);
}

#[test]
fn release_right_after_create_returns_its_frames() {
    let mut vm = system();
    let before = vm.pmm().free_frames();
    let root = vm.address_space_create(BOOT_PML4).unwrap();
    assert_eq!(vm.pmm().free_frames(), before - 3);
    vm.address_space_release(root);
    assert_eq!(vm.pmm().free_frames(), before);
    assert_eq!(vm.demand_mapped(), 0);
}
