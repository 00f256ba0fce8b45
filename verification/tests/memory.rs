use kernel_rs::heap::{KernelAllocator, HEAP_FRAMES};
use kernel_rs::pmm::{MemmapEntry, Pmm, FRAME_SIZE, LIMINE_MEMMAP_USABLE};

fn usable(base: u64, length: u64) -> MemmapEntry {
    MemmapEntry { base, length, typ: LIMINE_MEMMAP_USABLE }
}

fn ready_pmm(entries: &[MemmapEntry]) -> Pmm {
    let mut p = Pmm::new();
    let mut out = Vec::new();
    p.pmm_init(&mut out, Some(0xFFFF_8000_0000_0000), Some(entries));
    p
}

#[test]
fn pmm_init_counts_usable_frames_and_reports() {
    let mut p = Pmm::new();
    let mut out = Vec::new();
    let entries = [usable(0, 0x10_000), MemmapEntry { base: 0x10_000, length: 0x4000, typ: 2 }, usable(0x20_000, 0x3000)];
    p.pmm_init(&mut out, Some(0x1000), Some(&entries));
    // frames 1..16 (frame 0 is never handed out) and 0x20..0x23
    assert_eq!(p.free_frames(), 15 + 3);
    assert!(p.ready());
    assert_eq!(p.hhdm_offset(), 0x1000);
    assert_eq!(out, b"MM: pmm ok frames=0x0000000000000012\n".to_vec());
}

#[test]
fn pmm_init_without_memmap_reports_none() {
    let mut p = Pmm::new();
    let mut out = Vec::new();
    p.pmm_init(&mut out, Some(0), None);
    assert!(!p.ready());
    assert_eq!(out, b"MM: pmm none\n".to_vec());
    assert_eq!(p.alloc_frame(), None);
}

#[test]
fn alloc_takes_lowest_frame_and_free_returns_it() {
    let mut p = ready_pmm(&[usable(0x5000, 0x3000)]);
    assert_eq!(p.alloc_frame(), Some(0x5000));
    assert_eq!(p.alloc_frame(), Some(0x6000));
    assert_eq!(p.free_frames(), 1);
    p.free_frame(0x5000);
    assert_eq!(p.free_frames(), 2);
    assert_eq!(p.alloc_frame(), Some(0x5000));
    // double free and frame 0 are ignored
    p.free_frame(0x7000);
    p.free_frame(0x7000);
    p.free_frame(0);
    assert_eq!(p.free_frames(), 1);
}

#[test]
fn alloc_exhausts_then_fails() {
    let mut p = ready_pmm(&[usable(0x1000, 0x2000)]);
    assert!(p.alloc_frame().is_some());
    assert!(p.alloc_frame().is_some());
    assert_eq!(p.alloc_frame(), None);
    assert_eq!(p.free_frames(), 0);
}

#[test]
fn contiguous_run_skips_holes() {
    let mut p = ready_pmm(&[usable(0x1000, 0x2000), usable(0x10_000, 0x5000)]);
    // frames 1,2 then 16..21: a run of 4 starts at 16
    assert_eq!(p.alloc_frames_contig(4), Some(0x10_000));
    assert_eq!(p.free_frames(), 2 + 1);
    assert_eq!(p.alloc_frames_contig(2), Some(0x1000));
    assert_eq!(p.alloc_frames_contig(2), None);
    assert_eq!(p.alloc_frames_contig(0), None);
}

#[test]
fn phys_to_virt_adds_hhdm() {
    let p = ready_pmm(&[usable(0x1000, 0x1000)]);
    assert_eq!(p.phys_to_virt(0x2000), 0xFFFF_8000_0000_2000);
}

fn ready_heap() -> KernelAllocator {
    let mut p = ready_pmm(&[usable(0x100_000, (HEAP_FRAMES as u64 + 8) * FRAME_SIZE)]);
    let mut h = KernelAllocator::new();
    let mut out = Vec::new();
    h.heap_init(&mut p, &mut out);
    assert_eq!(out, b"MM: heap ok size=0x0000000000400000\n".to_vec());
    h
}

#[test]
fn heap_init_without_memory_reports_none() {
    let mut p = Pmm::new();
    let mut h = KernelAllocator::new();
    let mut out = Vec::new();
    h.heap_init(&mut p, &mut out);
    assert_eq!(out, b"MM: heap none\n".to_vec());
    assert_eq!(h.heap_alloc(8, 8), 0);
}

#[test]
fn heap_alloc_is_aligned_and_first_fit() {
    let mut h = ready_heap();
    let base = 0xFFFF_8000_0010_0000u64;
    let a = h.heap_alloc(4096, 1);
    // payload right after the 16-byte header, 16-aligned
    assert_eq!(a, base + 16);
    let b = h.heap_alloc(8, 8);
    // block a took round_up(16 + 4096, 32) = 4128 bytes
    assert_eq!(b, base + 4128 + 16);
    let c = h.heap_alloc(1, 256);
    assert_eq!(c % 256, 0);
    assert!(c > b);
}

#[test]
fn heap_free_then_reuse() {
    let mut h = ready_heap();
    let a = h.heap_alloc(100, 16);
    let b = h.heap_alloc(100, 16);
    h.heap_dealloc(a);
    // the freed block is found first again
    assert_eq!(h.heap_alloc(100, 16), a);
    h.heap_dealloc(b);
    h.heap_dealloc(0);
}

#[test]
fn heap_coalesces_back_to_one_block() {
    let mut h = ready_heap();
    let ptrs: Vec<u64> = (0..8).map(|_| h.heap_alloc(1000, 16)).collect();
    for &p in ptrs.iter().rev() {
        h.heap_dealloc(p);
    }
    // everything merged: the whole window is one block again
    let big = h.heap_alloc(4 * 1024 * 1024 - 64, 16);
    assert_ne!(big, 0);
}

#[test]
fn heap_exhaustion_returns_null() {
    let mut h = ready_heap();
    assert_eq!(h.heap_alloc(8 * 1024 * 1024, 16), 0);
}

#[test]
fn frames_are_handed_out_once_and_free_restores_count() {
    let mut p = ready_pmm(&[usable(0x3000, 0x4000), usable(0x40_000, 0x2000)]);
    let before = p.free_frames();
    let mut seen = Vec::new();
    while let Some(f) = p.alloc_frame() {
        assert!(!seen.contains(&f));
        seen.push(f);
    }
    assert_eq!(seen.len() as u64, before);
    let f = seen[2];
    p.free_frame(f);
    assert_eq!(p.free_frames(), 1);
    assert_eq!(p.alloc_frame(), Some(f));
}

#[test]
fn heap_init_takes_its_window_from_the_allocator() {
    let mut p = ready_pmm(&[usable(0x100_000, (HEAP_FRAMES as u64 + 8) * FRAME_SIZE)]);
    let before = p.free_frames();
    let mut h = KernelAllocator::new();
    let mut out = Vec::new();
    h.heap_init(&mut p, &mut out);
    assert_eq!(p.free_frames(), before - HEAP_FRAMES as u64);
    // the next frame handed out lies past the heap window
    assert_eq!(p.alloc_frame(), Some(0x100_000 + HEAP_FRAMES as u64 * FRAME_SIZE));
    // the first allocation sits at the start of the window, through the direct map
    assert_eq!(h.heap_alloc(8, 8), 0xFFFF_8000_0010_0000 + 16);
}
