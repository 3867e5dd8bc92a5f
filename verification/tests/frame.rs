use ostd_mm::mm::LINEAR_MAPPING_BASE_VADDR;
use ostd_mm::mm::io::VirtMem;
use buddy_system_allocator::FrameAllocator;

use ostd_mm::error::Error;
use ostd_mm::mm::frame::allocator::{init, CountingFrameAllocator, FrameAllocOptions, MemoryRegion, MemoryRegionType};
use ostd_mm::mm::frame::untyped::FrameRef;
use ostd_mm::mm::frame::{frame_to_meta, meta_to_frame, FrameManager, REF_COUNT_UNUSED};
use ostd_mm::mm::{FRAME_METADATA_BASE_VADDR, PAGE_SIZE};

fn linear_mem(nr_frames: usize) -> VirtMem {
    VirtMem { base: LINEAR_MAPPING_BASE_VADDR, bytes: vec![Some(0xaa); nr_frames * 4096] }
}


fn manager(nr_frames: usize) -> FrameManager {
    let regions = vec![MemoryRegion { base: 0, len: (nr_frames as u64) * 4096, typ: MemoryRegionType::Usable }];
    FrameManager::new(nr_frames, init(&regions))
}

#[test]
fn init_counts_the_usable_bytes() {
    let regions = vec![
        MemoryRegion { base: 0x1000, len: 0x3000, typ: MemoryRegionType::Usable },
        MemoryRegion { base: 0x10_0000, len: 0x1800, typ: MemoryRegionType::Usable },
        MemoryRegion { base: 0x20_0000, len: 0x8000, typ: MemoryRegionType::Reserved },
    ];
    let alloc = init(&regions);
    // Only whole frames count: the second region holds one.
    assert_eq!(alloc.mem_total(), 0x3000 + 0x1000);
    assert_eq!(alloc.mem_available(), 0x3000 + 0x1000);
}

#[test]
fn counting_allocator_tracks_allocations() {
    let mut buddy = FrameAllocator::<32>::new();
    buddy.add_frame(0, 16);
    let mut alloc = CountingFrameAllocator::new(buddy, 16 * 4096);
    assert_eq!(alloc.mem_available(), 16 * 4096);
    let first = alloc.alloc_frames(4).unwrap();
    assert_eq!(first % 4, 0);
    assert!(first + 4 <= 16);
    assert_eq!(alloc.mem_available(), 12 * 4096);
    let second = alloc.alloc_frames(3).unwrap();
    assert_eq!(second % 4, 0);
    assert_ne!(first, second);
    alloc.dealloc(first, 4);
    assert_eq!(alloc.mem_available(), 13 * 4096);
    assert_eq!(alloc.alloc_frames(32), None);
}

#[test]
fn meta_slot_address_round_trips() {
    assert_eq!(frame_to_meta(0), FRAME_METADATA_BASE_VADDR);
    let v = frame_to_meta(5 * PAGE_SIZE);
    assert!(v > FRAME_METADATA_BASE_VADDR);
    assert_eq!(meta_to_frame(v), 5 * PAGE_SIZE);
}

#[test]
fn alloc_frame_counts_references() {
    let mut fm = manager(8);
    let frame = FrameAllocOptions::new().alloc_frame(&mut fm, &mut linear_mem(64)).unwrap();
    assert_eq!(frame.reference_count(&fm), 1);
    assert_eq!(frame.size(), PAGE_SIZE);
    assert_eq!(frame.level(), 1);
    assert_eq!(frame.start_paddr() % PAGE_SIZE, 0);
    let other = frame.clone(&mut fm);
    assert_eq!(frame.reference_count(&fm), 2);
    other.drop(&mut fm);
    assert_eq!(frame.reference_count(&fm), 1);
    let pa = frame.start_paddr();
    let borrowed = FrameRef::raw_as_ref(pa);
    assert_eq!(borrowed.deref().start_paddr(), pa);
    let avail = fm.allocator().mem_available();
    let probe = FrameRef::raw_as_ref(pa);
    frame.drop(&mut fm);
    assert_eq!(probe.deref().reference_count(&fm), REF_COUNT_UNUSED);
    assert_eq!(fm.allocator().mem_available(), avail + PAGE_SIZE as usize);
}

#[test]
fn alloc_frame_fails_without_memory() {
    let mut fm = manager(2);
    let a = FrameAllocOptions::new().alloc_frame(&mut fm, &mut linear_mem(64));
    let b = FrameAllocOptions::new().alloc_frame(&mut fm, &mut linear_mem(64));
    assert!(a.is_ok() && b.is_ok());
    assert!(matches!(FrameAllocOptions::new().alloc_frame(&mut fm, &mut linear_mem(64)), Err(Error::NoMemory)));
}

#[test]
fn segment_split_and_slice() {
    let mut fm = manager(16);
    let mut opts = FrameAllocOptions::new();
    opts.zeroed(false);
    assert!(!opts.zeroed);
    let seg = opts.alloc_segment(4, &mut fm, &mut linear_mem(64)).unwrap();
    assert_eq!(seg.size(), 4 * PAGE_SIZE);
    assert_eq!(seg.end_paddr() - seg.start_paddr(), 4 * PAGE_SIZE);
    let start = seg.start_paddr();
    let part = seg.slice(&(PAGE_SIZE..3 * PAGE_SIZE), &mut fm);
    assert_eq!(part.start_paddr(), start + PAGE_SIZE);
    assert_eq!(part.end_paddr(), start + 3 * PAGE_SIZE);
    let (a, b) = seg.split(PAGE_SIZE);
    assert_eq!(a.start_paddr(), start);
    assert_eq!(a.end_paddr(), start + PAGE_SIZE);
    assert_eq!(b.start_paddr(), start + PAGE_SIZE);
    assert_eq!(b.end_paddr(), start + 4 * PAGE_SIZE);
    part.drop(&mut fm);
    a.drop(&mut fm);
    b.drop(&mut fm);
}

#[test]
fn segment_yields_its_frames_in_order() {
    let mut fm = manager(16);
    let mut seg = FrameAllocOptions::new().alloc_segment(2, &mut fm, &mut linear_mem(64)).unwrap();
    let start = seg.start_paddr();
    let f0 = seg.next().unwrap();
    let f1 = seg.next().unwrap();
    assert!(seg.next().is_none());
    assert_eq!(f0.start_paddr(), start);
    assert_eq!(f1.start_paddr(), start + PAGE_SIZE);
}

#[test]
fn alloc_frame_zeroes_its_bytes_unless_told_not_to() {
    let mut fm = manager(8);
    let mut lin = linear_mem(8);
    let frame = FrameAllocOptions::new().alloc_frame(&mut fm, &mut lin).unwrap();
    let base = LINEAR_MAPPING_BASE_VADDR + frame.start_paddr();
    assert_eq!(lin.read_byte(base), Some(0));
    assert_eq!(lin.read_byte(base + PAGE_SIZE - 1), Some(0));

    let mut opts = FrameAllocOptions::new();
    opts.zeroed(false);
    let other = opts.alloc_frame(&mut fm, &mut lin).unwrap();
    let other_base = LINEAR_MAPPING_BASE_VADDR + other.start_paddr();
    assert_eq!(lin.read_byte(other_base), Some(0xaa));

    let seg = FrameAllocOptions::new().alloc_segment(2, &mut fm, &mut lin).unwrap();
    let seg_base = LINEAR_MAPPING_BASE_VADDR + seg.start_paddr();
    assert_eq!(lin.read_byte(seg_base), Some(0));
    assert_eq!(lin.read_byte(seg_base + 2 * PAGE_SIZE - 1), Some(0));
}

#[test]
fn alloc_segment_needs_a_free_block_that_large() {
    let mut fm = manager(8);
    let mut lin = linear_mem(8);
    assert!(matches!(FrameAllocOptions::new().alloc_segment(16, &mut fm, &mut lin), Err(Error::NoMemory)));
    assert!(matches!(FrameAllocOptions::new().alloc_segment(0, &mut fm, &mut lin), Err(Error::InvalidArgs)));
    let seg = FrameAllocOptions::new().alloc_segment(8, &mut fm, &mut lin).unwrap();
    assert_eq!(seg.size(), 8 * PAGE_SIZE);
    assert!(matches!(FrameAllocOptions::new().alloc_segment(1, &mut fm, &mut lin), Err(Error::NoMemory)));
}
