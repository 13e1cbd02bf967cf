use smp_kernel::bitmap::{test_bitmap, Bitmap};
use smp_kernel::frame::{FrameAllocator, KER_LOWER_BOUND, PAGE_SIZE};
use smp_kernel::heap::{HeapAllocator, BLOCK_HEADER, ARENA_HEADER};
use smp_kernel::paging::{
    get_index, Entry, PageTable, NO_CACHE, PRESENT, WRITABLE, WRITE_THROUGH, NO_EXECUTE,
};

fn machine() -> (FrameAllocator, PageTable) {
    // 64 MiB of RAM from 1 MiB; the root table sits below the managed frames.
    (FrameAllocator::new(0x100000, 0x4000000), PageTable::new(0x1000))
}

#[test]
fn bitmap_set_then_get() {
    let mut b = Bitmap::new(64);
    assert_eq!(b.len(), 64);
    b.set(5, true);
    assert!(b.get(5));
    assert!(!b.get(4));
    assert!(!b.get(6));
    b.set(5, false);
    assert!(!b.get(5));
    b.set(63, true);
    assert!(b.get(63));
}

#[test]
fn bitmap_rounds_capacity_down_to_bytes() {
    assert_eq!(Bitmap::new(70).len(), 64);
    assert_eq!(Bitmap::new(7).len(), 0);
}

#[test]
fn bitmap_first_unused_takes_lowest_clear_bit() {
    let mut b = Bitmap::new(16);
    b.set(0, true);
    b.set(1, true);
    b.set(2, true);
    b.set(4, true);
    assert_eq!(b.set_first_unused(), Some(3));
    assert!(b.get(3));
    assert_eq!(b.set_first_unused(), Some(5));
    assert_eq!(b.set_first_unused(), Some(6));
}

#[test]
fn bitmap_first_unused_none_when_full() {
    let mut b = Bitmap::new(8);
    let mut seen = Vec::new();
    for _ in 0..8 {
        let i = b.set_first_unused().unwrap();
        assert!(!seen.contains(&i));
        seen.push(i);
    }
    assert_eq!(b.set_first_unused(), None);
    for i in 0..8 {
        assert!(b.get(i));
    }
}

#[test]
fn test_bitmap_marks_and_takes() {
    let r = test_bitmap();
    assert_eq!(r.len(), 100);
    assert_eq!(&r[0..9], &[1, 2, 3, 4, 5, 6, 7, 8, 10]);
    for k in 0..100 {
        assert!(r[k] % 9 != 0);
        if k > 0 {
            assert!(r[k - 1] < r[k]);
        }
    }
}

#[test]
fn frame_alloc_hands_out_distinct_frames() {
    let (mut fa, _) = machine();
    // the bitmap of 0x4000000 / 4096 bits takes 2 KiB at the base
    let a = fa.alloc_frame().unwrap();
    let b = fa.alloc_frame().unwrap();
    assert_eq!(a, 0x101000);
    assert_eq!(b, 0x102000);
    assert_ne!(a, b);
    assert!(fa.is_allocated(a));
    assert!(fa.is_allocated(b));
    assert!(!fa.is_allocated(0x103000));
    assert!(!fa.is_allocated(0x101800));
}

#[test]
fn frame_dealloc_makes_frame_reusable() {
    let (mut fa, _) = machine();
    let a = fa.alloc_frame().unwrap();
    let _b = fa.alloc_frame().unwrap();
    fa.dealloc(a);
    assert!(!fa.is_allocated(a));
    assert_eq!(fa.alloc_frame(), Some(a));
}

#[test]
fn frame_alloc_runs_out() {
    // 256 KiB: 64 bitmap bits, 63 frames between the bitmap page and the end
    let mut fa = FrameAllocator::new(0x100000, 0x40000);
    let mut got = Vec::new();
    while let Some(p) = fa.alloc_frame() {
        assert!(p >= 0x101000 && p < 0x140000 && p % PAGE_SIZE == 0);
        assert!(!got.contains(&p));
        got.push(p);
    }
    assert_eq!(got.len(), 63);
    assert_eq!(fa.alloc_frame(), None);
}

#[test]
fn page_index_per_level() {
    let v: usize = 0x0000_7fff_ffff_f000;
    assert_eq!(get_index(v, 0), 511);
    assert_eq!(get_index(v, 1), 511);
    assert_eq!(get_index(v, 2), 511);
    assert_eq!(get_index(v, 3), 255);
    let w: usize = 0x0000_0040_2020_3000;
    assert_eq!(get_index(w, 0), 3);
    assert_eq!(get_index(w, 1), 257);
    assert_eq!(get_index(w, 2), 256);
    assert_eq!(get_index(w, 3), 0);
}

#[test]
fn entry_fields() {
    let mut e = Entry(0);
    e.set_paddr(0x1234_5000);
    e.set_flags(PRESENT | WRITABLE | NO_EXECUTE | (1 << 40));
    assert_eq!(e.paddr(), 0x1234_5000);
    assert_eq!(e.flags(), PRESENT | WRITABLE | NO_EXECUTE);
    assert_eq!(e.to_int(), 0x8000_0000_1234_5003);
    e.set_paddr(0x2000);
    assert_eq!(e.paddr(), 0x2000);
    assert_eq!(e.flags(), PRESENT | WRITABLE | NO_EXECUTE);
}

#[test]
fn page_map_then_translate() {
    let (mut fa, mut pt) = machine();
    assert_eq!(pt.translate(0xc000_0000), None);
    assert_eq!(pt.page_map(0xc000_0000, 0x20_0000, &mut fa), Some(0xc000_0000));
    assert_eq!(pt.translate(0xc000_0000), Some(0x20_0000));
    assert_eq!(pt.translate(0xc000_0fff), Some(0x20_0000));
    assert_eq!(pt.translate(0xc000_1000), None);
    assert_eq!(pt.flags_of(0xc000_0000), Some(PRESENT | WRITABLE));
    // three intermediate tables came from the frame allocator
    assert!(fa.is_allocated(0x101000));
    assert!(fa.is_allocated(0x103000));
    assert!(!fa.is_allocated(0x104000));
    assert!(pt.is_table_frame(0x102000));
    // a second page in the same level-1 table takes no new table
    assert_eq!(pt.page_map(0xc000_1000, 0x30_0000, &mut fa), Some(0xc000_1000));
    assert_eq!(pt.translate(0xc000_1000), Some(0x30_0000));
    assert_eq!(pt.translate(0xc000_0000), Some(0x20_0000));
    assert!(!fa.is_allocated(0x104000));
}

#[test]
fn page_unmap_then_translate_none() {
    let (mut fa, mut pt) = machine();
    pt.page_map(0x40_0000, 0x50_0000, &mut fa).unwrap();
    pt.page_map(0x40_1000, 0x60_0000, &mut fa).unwrap();
    pt.page_unmap(0x40_0000);
    assert_eq!(pt.translate(0x40_0000), None);
    assert_eq!(pt.flags_of(0x40_0000), None);
    assert_eq!(pt.translate(0x40_1000), Some(0x60_0000));
    // unmapping what is not mapped changes nothing
    pt.page_unmap(0x7000_0000);
    assert_eq!(pt.translate(0x40_1000), Some(0x60_0000));
    // the page can be mapped again, to another frame
    pt.page_map(0x40_0000, 0x70_0000, &mut fa).unwrap();
    assert_eq!(pt.translate(0x40_0000), Some(0x70_0000));
}

#[test]
fn map_volatile_sets_no_cache() {
    let (mut fa, mut pt) = machine();
    assert_eq!(pt.map_volatile(0xfebf_0000, &mut fa), Some(0xfebf_0000));
    assert_eq!(pt.translate(0xfebf_0000), Some(0xfebf_0000));
    let flags = pt.flags_of(0xfebf_0000).unwrap();
    assert_ne!(flags & NO_CACHE, 0);
    assert_ne!(flags & WRITE_THROUGH, 0);
    assert_eq!(flags, PRESENT | WRITABLE | NO_CACHE | WRITE_THROUGH);
}

#[test]
fn page_map_fails_without_frames_for_tables() {
    let mut fa = FrameAllocator::new(0x100000, 0x40000);
    let mut pt = PageTable::new(0x1000);
    while fa.alloc_frame().is_some() {}
    assert_eq!(pt.page_map(0xc000_0000, 0x20_0000, &mut fa), None);
    assert_eq!(pt.translate(0xc000_0000), None);
}

#[test]
fn alloc_multiple_maps_consecutive_pages_to_distinct_frames() {
    let (mut fa, mut pt) = machine();
    let a = fa.alloc_multiple(&mut pt, 2).unwrap();
    let b = fa.alloc_multiple(&mut pt, 2).unwrap();
    assert_eq!(a, KER_LOWER_BOUND);
    assert_eq!(b, KER_LOWER_BOUND + 2 * PAGE_SIZE);
    assert_ne!(a, b);
    let mut frames = Vec::new();
    for v in [a, a + PAGE_SIZE, b, b + PAGE_SIZE] {
        let p = pt.translate(v).unwrap();
        assert!(fa.is_allocated(p));
        assert!(!frames.contains(&p));
        frames.push(p);
    }
    assert_eq!(pt.translate(b + 2 * PAGE_SIZE), None);
}

#[test]
fn alloc_multiple_refuses_mapped_run() {
    let (mut fa, mut pt) = machine();
    pt.page_map(KER_LOWER_BOUND + PAGE_SIZE, 0x20_0000, &mut fa).unwrap();
    assert_eq!(fa.alloc_multiple(&mut pt, 2), None);
    // the cursor did not move
    pt.page_unmap(KER_LOWER_BOUND + PAGE_SIZE);
    assert_eq!(fa.alloc_multiple(&mut pt, 2), Some(KER_LOWER_BOUND));
}

#[test]
fn alloc_stack_leaves_guard_page() {
    let (mut fa, mut pt) = machine();
    let top = fa.alloc_stack(&mut pt, 3).unwrap();
    assert_eq!(top, KER_LOWER_BOUND + 4 * PAGE_SIZE);
    // tables took the first three frames, the guard page's frame was given back
    assert!(!fa.is_allocated(0x104000));
    assert!(fa.is_allocated(0x105000));
    assert_eq!(pt.translate(KER_LOWER_BOUND), None);
    for k in 1..4 {
        assert!(pt.translate(KER_LOWER_BOUND + k * PAGE_SIZE).is_some());
    }
    assert_eq!(fa.alloc_multiple(&mut pt, 1), Some(top));
}

#[test]
fn dealloc_multiple_unmaps_and_frees() {
    let (mut fa, mut pt) = machine();
    let v = fa.alloc_multiple(&mut pt, 3).unwrap();
    let frames: Vec<usize> = (0..3).map(|k| pt.translate(v + k * PAGE_SIZE).unwrap()).collect();
    fa.dealloc_multiple(&mut pt, v, 3);
    for k in 0..3 {
        assert_eq!(pt.translate(v + k * PAGE_SIZE), None);
        assert!(!fa.is_allocated(frames[k]));
    }
    // the tables were taken before the first data frame, and they stay
    assert_eq!(frames[0], 0x104000);
    assert!(pt.is_table_frame(0x101000));
    assert!(fa.is_allocated(0x101000));
}

#[test]
fn heap_small_allocation_layout() {
    let (mut fa, mut pt) = machine();
    let mut h = HeapAllocator::new();
    let p = h.allocate(100, &mut fa, &mut pt).unwrap();
    // first arena in the first free frame: arena header, then block header
    assert_eq!(p, 0x101000 + ARENA_HEADER + BLOCK_HEADER);
    assert_eq!(p % 16, 0);
    // 100 rounds to 112; the next block follows right after
    let q = h.allocate(1, &mut fa, &mut pt).unwrap();
    assert_eq!(q, p + 112 + BLOCK_HEADER);
    assert_eq!(q % 16, 0);
}

#[test]
fn heap_free_then_same_bytes_reused() {
    let (mut fa, mut pt) = machine();
    let mut h = HeapAllocator::new();
    let keep = h.allocate(64, &mut fa, &mut pt).unwrap();
    let p = h.allocate(200, &mut fa, &mut pt).unwrap();
    assert!(h.deallocate(p, &mut fa, &mut pt));
    let again = h.allocate(200, &mut fa, &mut pt).unwrap();
    assert_eq!(again, p);
    assert_ne!(again, keep);
}

#[test]
fn heap_rejects_stray_and_double_free() {
    let (mut fa, mut pt) = machine();
    let mut h = HeapAllocator::new();
    let p = h.allocate(32, &mut fa, &mut pt).unwrap();
    assert!(!h.deallocate(p + 16, &mut fa, &mut pt));
    assert!(h.deallocate(p, &mut fa, &mut pt));
    assert!(!h.deallocate(p, &mut fa, &mut pt));
}

#[test]
fn heap_new_arena_when_full() {
    let (mut fa, mut pt) = machine();
    let mut h = HeapAllocator::new();
    let a = h.allocate(3000, &mut fa, &mut pt).unwrap();
    let b = h.allocate(3000, &mut fa, &mut pt).unwrap();
    assert_eq!(a / PAGE_SIZE, 0x101);
    assert_eq!(b / PAGE_SIZE, 0x102);
}

#[test]
fn heap_huge_takes_pages() {
    let (mut fa, mut pt) = machine();
    let mut h = HeapAllocator::new();
    let p = h.allocate(5000, &mut fa, &mut pt).unwrap();
    assert_eq!(p, KER_LOWER_BOUND + BLOCK_HEADER);
    assert_eq!(p % 16, 0);
    assert!(pt.translate(KER_LOWER_BOUND).is_some());
    assert!(pt.translate(KER_LOWER_BOUND + PAGE_SIZE).is_some());
    assert!(h.deallocate(p, &mut fa, &mut pt));
    assert_eq!(pt.translate(KER_LOWER_BOUND), None);
    assert_eq!(pt.translate(KER_LOWER_BOUND + PAGE_SIZE), None);
    assert!(!h.deallocate(p, &mut fa, &mut pt));
}

#[test]
fn heap_lifetime_many_blocks() {
    let (mut fa, mut pt) = machine();
    let mut h = HeapAllocator::new();
    let mut seed: u64 = 12345;
    let mut ptrs = Vec::new();
    for _ in 0..2000 {
        seed = seed.wrapping_mul(6364136223846793005).wrapping_add(1442695040888963407);
        let len = 16 + ((seed >> 33) as usize) % 2985;
        let p = h.allocate(len, &mut fa, &mut pt).unwrap();
        assert_eq!(p % 16, 0);
        assert!(!ptrs.contains(&p));
        ptrs.push(p);
    }
    for i in (1..ptrs.len()).rev() {
        seed = seed.wrapping_mul(6364136223846793005).wrapping_add(1442695040888963407);
        let j = ((seed >> 33) as usize) % (i + 1);
        ptrs.swap(i, j);
    }
    for p in &ptrs {
        assert!(h.deallocate(*p, &mut fa, &mut pt));
    }
    for i in 0..h.arena_count() {
        for b in h.arena_blocks(i) {
            assert!(b.length >= 8);
            assert!(b.free);
            assert_eq!(b.magic, 0xdeadbeef);
        }
    }
    assert!(h.allocate(3000, &mut fa, &mut pt).is_some());
}
