use ostd_mm::mm::LINEAR_MAPPING_BASE_VADDR;
use ostd_mm::mm::io::VirtMem;
use ostd_mm::mm::frame::allocator::{init, FrameAllocOptions, MemoryRegion, MemoryRegionType};
use ostd_mm::mm::frame::{Frame, FrameManager, Unknown};
use ostd_mm::mm::page_prop::{PageFlags, PageProperty};
use ostd_mm::mm::page_table::cursor::PageTableItem;
use ostd_mm::mm::page_table::debug::dump_page_table;
use ostd_mm::mm::page_table::node::PageTableMem;
use ostd_mm::mm::page_table::pte::PageTableEntry;
use ostd_mm::mm::page_table::{
    nr_pte_index_bits, page_walk, pte_index, KernelMode, PageTable, PageTableError, UserMode,
};
use ostd_mm::mm::{current_v2p, kspace_v2p, register_v2p, vaddr_to_paddr};

fn linear_mem(nr_frames: usize) -> VirtMem {
    VirtMem { base: LINEAR_MAPPING_BASE_VADDR, bytes: vec![Some(0xaa); nr_frames * 4096] }
}


const KBASE: u64 = 0xffff_8000_0000_0000;

fn setup(nr_frames: usize) -> (FrameManager, PageTableMem<PageTableEntry>) {
    let regions = vec![MemoryRegion { base: 0, len: (nr_frames as u64) * 4096, typ: MemoryRegionType::Usable }];
    let alloc = init(&regions);
    let fm = FrameManager::new(nr_frames, alloc);
    let mem = PageTableMem::new(nr_frames);
    (fm, mem)
}

#[test]
fn pte_index_takes_nine_bits_per_level() {
    assert_eq!(nr_pte_index_bits(), 9);
    let va: u64 = (3 << 39) | (5 << 30) | (7 << 21) | (9 << 12) | 0x123;
    assert_eq!(pte_index(va, 4), 3);
    assert_eq!(pte_index(va, 3), 5);
    assert_eq!(pte_index(va, 2), 7);
    assert_eq!(pte_index(va, 1), 9);
}

#[test]
fn empty_table_maps_nothing() {
    let (mut fm, mut mem) = setup(16);
    let pt = PageTable::<KernelMode, PageTableEntry>::empty(&mut mem, &mut fm);
    assert_eq!(pt.query(&mem, &fm, KBASE), None);
    assert_eq!(pt.query(&mem, &fm, KBASE + 0x1234_5000), None);
    assert_eq!(page_walk(&mem, pt.root_paddr(), KBASE + 8), None);
}

#[test]
fn map_then_query_gives_the_physical_address() {
    let (mut fm, mut mem) = setup(16);
    let pt = PageTable::<KernelMode, PageTableEntry>::empty(&mut mem, &mut fm);
    let prop = PageProperty::new(PageFlags::RW());
    let r = pt.map(&mut mem, &mut fm, &(KBASE..KBASE + 0x3000), &(0x40_0000..0x40_3000), prop);
    assert_eq!(r, Ok(()));
    assert_eq!(pt.query(&mem, &fm, KBASE), Some((0x40_0000, prop)));
    assert_eq!(pt.query(&mem, &fm, KBASE + 0x1008), Some((0x40_1008, prop)));
    assert_eq!(pt.query(&mem, &fm, KBASE + 0x2fff), Some((0x40_2fff, prop)));
    assert_eq!(pt.query(&mem, &fm, KBASE + 0x3000), None);
    assert_eq!(page_walk(&mem, pt.root_paddr(), KBASE + 0x1008), Some((0x40_1008, prop)));
    assert_eq!(register_v2p(&mem, pt.root_paddr(), KBASE + 0x2010), Some(0x40_2010));
}

#[test]
fn map_rejects_bad_ranges() {
    let (mut fm, mut mem) = setup(16);
    let pt = PageTable::<KernelMode, PageTableEntry>::empty(&mut mem, &mut fm);
    let prop = PageProperty::new(PageFlags::RW());
    let r = pt.map(&mut mem, &mut fm, &(0x1000..0x2000), &(0x1000..0x2000), prop);
    assert_eq!(r, Err(PageTableError::InvalidVaddrRange(0x1000, 0x2000)));
    let r = pt.map(&mut mem, &mut fm, &(KBASE + 0x10..KBASE + 0x2000), &(0x1000..0x2000), prop);
    assert_eq!(r, Err(PageTableError::UnalignedVaddr));
    let r = pt.map(&mut mem, &mut fm, &(KBASE + 0x2000..KBASE + 0x1000), &(0x1000..0x2000), prop);
    assert_eq!(r, Err(PageTableError::InvalidVaddrRange(KBASE + 0x2000, KBASE + 0x1000)));
}

#[test]
fn cursor_new_checks_the_range() {
    let (mut fm, mut mem) = setup(16);
    let pt = PageTable::<UserMode, PageTableEntry>::empty(&mut mem, &mut fm);
    assert!(matches!(
        pt.cursor(&mem, &fm, &(KBASE..KBASE + 0x1000)),
        Err(PageTableError::InvalidVaddrRange(_, _))
    ));
    assert!(matches!(pt.cursor(&mem, &fm, &(0x1000..0x1800)), Err(PageTableError::UnalignedVaddr)));
    let c = pt.cursor(&mem, &fm, &(0x1000..0x5000)).unwrap();
    assert_eq!(c.virt_addr(), 0x1000);
}

#[test]
fn cursor_jump_stays_in_its_range() {
    let (mut fm, mut mem) = setup(16);
    let pt = PageTable::<UserMode, PageTableEntry>::empty(&mut mem, &mut fm);
    let mut c = pt.cursor(&mem, &fm, &(0x1000..0x5000)).unwrap();
    assert_eq!(c.jump(&mem, 0x3000), Ok(()));
    assert_eq!(c.virt_addr(), 0x3000);
    assert_eq!(c.jump(&mem, 0x5000), Err(PageTableError::InvalidVaddr(0x5000)));
    assert_eq!(c.virt_addr(), 0x3000);
}

#[test]
fn cursor_query_reports_unmapped_pages() {
    let (mut fm, mut mem) = setup(16);
    let pt = PageTable::<UserMode, PageTableEntry>::empty(&mut mem, &mut fm);
    let mut c = pt.cursor(&mem, &fm, &(0x1000..0x3000)).unwrap();
    match c.query(&mem, &mut fm) {
        Ok(PageTableItem::NotMapped { va, len }) => {
            assert_eq!(va, 0x1000);
            assert!(len >= 0x1000);
        }
        _ => panic!("expected an unmapped item"),
    }
}

#[test]
fn cursor_mut_map_take_next_and_protect_next() {
    let (mut fm, mut mem) = setup(32);
    let pt = PageTable::<UserMode, PageTableEntry>::empty(&mut mem, &mut fm);
    let frame = FrameAllocOptions::new().alloc_frame(&mut fm, &mut linear_mem(64)).unwrap();
    let frame_pa = frame.start_paddr();
    let page: Frame<Unknown> = Frame::from_raw(frame.into_raw());
    let prop = PageProperty::new(PageFlags::RW());

    let mut c = pt.cursor_mut(&mem, &fm, &(0x4000..0x8000)).unwrap();
    let old = c.map(&mut mem, &mut fm, page, prop);
    assert!(old.is_none());
    assert_eq!(c.virt_addr(), 0x5000);
    assert_eq!(pt.query(&mem, &fm, 0x4010), Some((frame_pa + 0x10, prop)));

    let mut c = pt.cursor_mut(&mem, &fm, &(0x4000..0x8000)).unwrap();
    let ro = |p: PageProperty| PageProperty { flags: PageFlags::R(), ..p };
    let protected = c.protect_next(&mut mem, &mut fm, 0x4000, &ro);
    assert_eq!(protected, Some(0x4000..0x5000));
    let ro_prop = PageProperty::new(PageFlags::R());
    assert_eq!(pt.query(&mem, &fm, 0x4010), Some((frame_pa + 0x10, ro_prop)));
    assert_eq!(c.protect_next(&mut mem, &mut fm, 0x3000, &ro), None);

    let mut c = pt.cursor_mut(&mem, &fm, &(0x4000..0x8000)).unwrap();
    match c.take_next(&mut mem, &mut fm, 0x4000) {
        PageTableItem::Mapped { va, page, prop } => {
            // The item carries the address where the page was mapped.
            assert_eq!(va, 0x4000);
            assert_eq!(page.start_paddr(), frame_pa);
            assert_eq!(prop, ro_prop);
        }
        _ => panic!("expected the mapped frame"),
    }
    assert_eq!(pt.query(&mem, &fm, 0x4010), None);
    match c.take_next(&mut mem, &mut fm, 0x3000) {
        PageTableItem::NotMapped { va, len } => {
            assert_eq!(va, 0x5000);
            assert_eq!(len, 0x3000);
        }
        _ => panic!("expected nothing mapped"),
    }
    assert_eq!(c.virt_addr(), 0x8000);
}

#[test]
fn cursor_mut_map_pa_maps_untracked_memory() {
    let (mut fm, mut mem) = setup(16);
    let pt = PageTable::<KernelMode, PageTableEntry>::empty(&mut mem, &mut fm);
    let prop = PageProperty::new(PageFlags::RW());
    let mut c = pt.cursor_mut(&mem, &fm, &(KBASE..KBASE + 0x4000)).unwrap();
    c.map_pa(&mut mem, &mut fm, &(0x20_0000..0x20_2000), prop);
    assert_eq!(c.virt_addr(), KBASE + 0x2000);
    let mut c = pt.cursor(&mem, &fm, &(KBASE..KBASE + 0x4000)).unwrap();
    match c.query(&mem, &mut fm) {
        Ok(PageTableItem::MappedUntracked { va, pa, len, prop: p }) => {
            assert_eq!(va, KBASE);
            assert_eq!(pa, 0x20_0000);
            assert_eq!(len, 0x1000);
            assert_eq!(p, prop);
        }
        _ => panic!("expected an untracked mapping"),
    }
}

#[test]
fn user_page_table_shares_the_kernel_half() {
    let (mut fm, mut mem) = setup(32);
    let kpt = PageTable::<KernelMode, PageTableEntry>::empty(&mut mem, &mut fm);
    let prop = PageProperty::new(PageFlags::RW());
    assert_eq!(kpt.map(&mut mem, &mut fm, &(KBASE..KBASE + 0x1000), &(0x7000..0x8000), prop), Ok(()));
    kpt.make_shared_tables(&mut mem, &mut fm, 256..258);
    let upt = kpt.create_user_page_table(&mut mem, &mut fm);
    assert_ne!(upt.root_paddr(), kpt.root_paddr());
    assert_eq!(page_walk(&mem, upt.root_paddr(), KBASE + 0x10), Some((0x7010, prop)));
    assert_eq!(page_walk(&mem, upt.root_paddr(), 0x1000), None);
    // A mapping made later below a shared root entry is seen by both.
    assert_eq!(kpt.map(&mut mem, &mut fm, &(KBASE + 0x1000..KBASE + 0x2000), &(0x9000..0xa000), prop), Ok(()));
    assert_eq!(page_walk(&mem, upt.root_paddr(), KBASE + 0x1004), Some((0x9004, prop)));
}

#[test]
fn translation_prefers_the_linear_mapping() {
    let (mut fm, mut mem) = setup(16);
    let kpt = PageTable::<KernelMode, PageTableEntry>::empty(&mut mem, &mut fm);
    let upt = PageTable::<UserMode, PageTableEntry>::empty(&mut mem, &mut fm);
    assert_eq!(kspace_v2p(&mem, kpt.root_paddr(), KBASE + 0x1234), Some(0x1234));
    assert_eq!(vaddr_to_paddr(&mem, kpt.root_paddr(), None, KBASE + 0x5000), Some(0x5000));
    let prop = PageProperty::new(PageFlags::RW());
    let vmalloc: u64 = 0xffff_c000_0000_0000;
    assert_eq!(kpt.map(&mut mem, &mut fm, &(vmalloc..vmalloc + 0x1000), &(0x3000..0x4000), prop), Ok(()));
    assert_eq!(kspace_v2p(&mem, kpt.root_paddr(), vmalloc + 8), Some(0x3008));
    assert_eq!(kspace_v2p(&mem, kpt.root_paddr(), vmalloc + 0x1000), None);
    assert_eq!(current_v2p(&mem, kpt.root_paddr(), Some(upt.root_paddr()), 0x1000), None);
    assert_eq!(current_v2p(&mem, kpt.root_paddr(), None, 0x1000), None);
    assert_eq!(vaddr_to_paddr(&mem, kpt.root_paddr(), Some(upt.root_paddr()), vmalloc + 8), Some(0x3008));
}

#[test]
fn dump_lists_the_entries_on_the_way_to_a_mapping() {
    let (mut fm, mut mem) = setup(16);
    let pt = PageTable::<KernelMode, PageTableEntry>::empty(&mut mem, &mut fm);
    let prop = PageProperty::new(PageFlags::RW());
    assert_eq!(pt.map(&mut mem, &mut fm, &(KBASE..KBASE + 0x2000), &(0x40_0000..0x40_2000), prop), Ok(()));
    let lines = dump_page_table(&mem, pt.root_paddr(), KBASE + 0x1000, KBASE + 0x2000);
    assert_eq!(lines.len(), 4);
    assert_eq!((lines[0].level, lines[0].idx, lines[0].va, lines[0].indent), (4, 256, KBASE, 0));
    assert_eq!((lines[1].level, lines[1].idx, lines[1].va, lines[1].indent), (3, 0, KBASE, 2));
    assert_eq!((lines[2].level, lines[2].idx, lines[2].va, lines[2].indent), (2, 0, KBASE, 4));
    assert_eq!((lines[3].level, lines[3].idx, lines[3].va, lines[3].indent), (1, 1, KBASE + 0x1000, 6));
    assert_eq!(lines[3].pa, 0x40_1000);
    assert_eq!(lines[3].prop, prop);
}

#[test]
fn cursor_next_walks_the_range() {
    let (mut fm, mut mem) = setup(16);
    let pt = PageTable::<KernelMode, PageTableEntry>::empty(&mut mem, &mut fm);
    let prop = PageProperty::new(PageFlags::RW());
    assert_eq!(pt.map(&mut mem, &mut fm, &(KBASE + 0x1000..KBASE + 0x2000), &(0x8000..0x9000), prop), Ok(()));
    let mut c = pt.cursor(&mem, &fm, &(KBASE..KBASE + 0x2000)).unwrap();
    let mut mapped = Vec::new();
    while let Some(item) = c.next(&mem, &mut fm) {
        if let PageTableItem::MappedUntracked { va, pa, len, .. } = item {
            mapped.push((va, pa, len));
        }
    }
    assert_eq!(mapped, vec![(KBASE + 0x1000, 0x8000, 0x1000)]);
    assert!(c.virt_addr() >= KBASE + 0x2000);
}

#[test]
fn map_leaves_the_rest_of_the_range_unmapped() {
    let (mut fm, mut mem) = setup(16);
    let pt = PageTable::<KernelMode, PageTableEntry>::empty(&mut mem, &mut fm);
    let prop = PageProperty::new(PageFlags::RW());
    assert_eq!(pt.map(&mut mem, &mut fm, &(KBASE..KBASE + 0x4000), &(0x40_0000..0x40_1000), prop), Ok(()));
    assert_eq!(pt.query(&mem, &fm, KBASE + 0xfff), Some((0x40_0fff, prop)));
    assert_eq!(pt.query(&mem, &fm, KBASE + 0x1000), None);
    assert_eq!(pt.query(&mem, &fm, KBASE + 0x3fff), None);
    let ro = PageProperty::new(PageFlags::R());
    assert_eq!(pt.map(&mut mem, &mut fm, &(KBASE + 0x2000..KBASE + 0x3000), &(0x50_0000..0x50_1000), ro), Ok(()));
    assert_eq!(pt.query(&mem, &fm, KBASE + 0x10), Some((0x40_0010, prop)));
    assert_eq!(pt.query(&mem, &fm, KBASE + 0x2010), Some((0x50_0010, ro)));
    assert_eq!(pt.query(&mem, &fm, KBASE + 0x1010), None);
}

#[test]
fn map_pa_uses_huge_pages_and_splits_them() {
    let (mut fm, mut mem) = setup(16);
    let pt = PageTable::<KernelMode, PageTableEntry>::empty(&mut mem, &mut fm);
    let prop = PageProperty::new(PageFlags::RW());
    assert_eq!(pt.map(&mut mem, &mut fm, &(KBASE..KBASE + 0x40_0000), &(0x4000_0000..0x4040_0000), prop), Ok(()));
    assert_eq!(pt.query(&mem, &fm, KBASE + 0x1f_f008), Some((0x401f_f008, prop)));
    assert_eq!(pt.query(&mem, &fm, KBASE + 0x20_1234), Some((0x4020_1234, prop)));
    let mut c = pt.cursor(&mem, &fm, &(KBASE..KBASE + 0x40_0000)).unwrap();
    match c.query(&mem, &mut fm) {
        Ok(PageTableItem::MappedUntracked { va, pa, len, .. }) => {
            assert_eq!(va, KBASE);
            assert_eq!(pa, 0x4000_0000);
            assert_eq!(len, 0x20_0000);
        }
        _ => panic!("expected a huge untracked mapping"),
    }

    // Remapping one base page inside the first huge page splits it; the
    // other pages keep their translation.
    let ro = PageProperty::new(PageFlags::R());
    let mut c = pt.cursor_mut(&mem, &fm, &(KBASE..KBASE + 0x40_0000)).unwrap();
    assert_eq!(c.jump(&mem, KBASE + 0x1000), Ok(()));
    c.map_pa(&mut mem, &mut fm, &(0x9000..0xa000), ro);
    assert_eq!(c.virt_addr(), KBASE + 0x2000);
    assert_eq!(pt.query(&mem, &fm, KBASE + 0x1008), Some((0x9008, ro)));
    assert_eq!(pt.query(&mem, &fm, KBASE + 0x8), Some((0x4000_0008, prop)));
    assert_eq!(pt.query(&mem, &fm, KBASE + 0x2008), Some((0x4000_2008, prop)));
    assert_eq!(pt.query(&mem, &fm, KBASE + 0x1f_f008), Some((0x401f_f008, prop)));
    assert_eq!(pt.query(&mem, &fm, KBASE + 0x20_0008), Some((0x4020_0008, prop)));
}

#[test]
fn take_next_removes_an_untracked_page_only() {
    let (mut fm, mut mem) = setup(16);
    let pt = PageTable::<KernelMode, PageTableEntry>::empty(&mut mem, &mut fm);
    let prop = PageProperty::new(PageFlags::RW());
    assert_eq!(pt.map(&mut mem, &mut fm, &(KBASE..KBASE + 0x2000), &(0x70_0000..0x70_2000), prop), Ok(()));
    let mut c = pt.cursor_mut(&mem, &fm, &(KBASE..KBASE + 0x2000)).unwrap();
    match c.take_next(&mut mem, &mut fm, 0x2000) {
        PageTableItem::MappedUntracked { va, pa, len, prop: p } => {
            assert_eq!(va, KBASE);
            assert_eq!(pa, 0x70_0000);
            assert_eq!(len, 0x1000);
            assert_eq!(p, prop);
        }
        _ => panic!("expected the untracked page"),
    }
    assert_eq!(pt.query(&mem, &fm, KBASE + 0x10), None);
    assert_eq!(pt.query(&mem, &fm, KBASE + 0x1010), Some((0x70_1010, prop)));
}

#[test]
fn protect_next_changes_the_property_only() {
    let (mut fm, mut mem) = setup(16);
    let pt = PageTable::<KernelMode, PageTableEntry>::empty(&mut mem, &mut fm);
    let prop = PageProperty::new(PageFlags::RW());
    assert_eq!(pt.map(&mut mem, &mut fm, &(KBASE..KBASE + 0x2000), &(0x70_0000..0x70_2000), prop), Ok(()));
    let mut c = pt.cursor_mut(&mem, &fm, &(KBASE..KBASE + 0x2000)).unwrap();
    let ro = |p: PageProperty| PageProperty { flags: PageFlags::R(), ..p };
    assert_eq!(c.protect_next(&mut mem, &mut fm, 0x2000, &ro), Some(KBASE..KBASE + 0x1000));
    let ro_prop = PageProperty::new(PageFlags::R());
    assert_eq!(pt.query(&mem, &fm, KBASE + 0x10), Some((0x70_0010, ro_prop)));
    assert_eq!(pt.query(&mem, &fm, KBASE + 0x1010), Some((0x70_1010, prop)));
}

#[test]
fn copy_from_shares_the_frames_with_the_new_property() {
    let (mut fm, mut mem) = setup(32);
    let parent = PageTable::<UserMode, PageTableEntry>::empty(&mut mem, &mut fm);
    let child = PageTable::<UserMode, PageTableEntry>::empty(&mut mem, &mut fm);
    let frame = FrameAllocOptions::new().alloc_frame(&mut fm, &mut linear_mem(64)).unwrap();
    let frame_pa = frame.start_paddr();
    let page: Frame<Unknown> = Frame::from_raw(frame.into_raw());
    let rw = PageProperty::new(PageFlags::RW());
    let mut c = parent.cursor_mut(&mem, &fm, &(0x4000..0x8000)).unwrap();
    assert!(c.map(&mut mem, &mut fm, page, rw).is_none());

    let ro = |p: PageProperty| PageProperty { flags: PageFlags::R(), ..p };
    let mut src = parent.cursor_mut(&mem, &fm, &(0x4000..0x8000)).unwrap();
    let mut dst = child.cursor_mut(&mem, &fm, &(0x4000..0x8000)).unwrap();
    dst.copy_from(&mut src, &mut mem, &mut fm, 0x4000, &ro);
    assert_eq!(src.virt_addr(), 0x8000);
    assert_eq!(dst.virt_addr(), 0x8000);
    let ro_prop = PageProperty::new(PageFlags::R());
    assert_eq!(parent.query(&mem, &fm, 0x4010), Some((frame_pa + 0x10, ro_prop)));
    assert_eq!(child.query(&mem, &fm, 0x4010), Some((frame_pa + 0x10, ro_prop)));
    assert_eq!(child.query(&mem, &fm, 0x5010), None);
    assert_eq!(parent.query(&mem, &fm, 0x5010), None);
}

#[test]
fn protect_flush_tlb_protects_every_mapped_page() {
    let (mut fm, mut mem) = setup(16);
    let pt = PageTable::<KernelMode, PageTableEntry>::empty(&mut mem, &mut fm);
    let prop = PageProperty::new(PageFlags::RW());
    assert_eq!(pt.map(&mut mem, &mut fm, &(KBASE..KBASE + 0x1000), &(0x70_0000..0x70_1000), prop), Ok(()));
    assert_eq!(pt.map(&mut mem, &mut fm, &(KBASE + 0x2000..KBASE + 0x3000), &(0x80_0000..0x80_1000), prop), Ok(()));
    let ro = |p: PageProperty| PageProperty { flags: PageFlags::R(), ..p };
    let flushed = pt.protect_flush_tlb(&mut mem, &mut fm, &(KBASE..KBASE + 0x4000), &ro).unwrap();
    assert_eq!(flushed, vec![KBASE..KBASE + 0x1000, KBASE + 0x2000..KBASE + 0x3000]);
    let ro_prop = PageProperty::new(PageFlags::R());
    assert_eq!(pt.query(&mem, &fm, KBASE + 0x10), Some((0x70_0010, ro_prop)));
    assert_eq!(pt.query(&mem, &fm, KBASE + 0x2010), Some((0x80_0010, ro_prop)));
    assert_eq!(pt.query(&mem, &fm, KBASE + 0x1010), None);
    assert_eq!(
        pt.protect_flush_tlb(&mut mem, &mut fm, &(KBASE + 0x10..KBASE + 0x2000), &ro),
        Err(PageTableError::UnalignedVaddr)
    );
}

#[test]
fn take_next_finds_a_page_past_an_empty_slot_that_ends_inside_the_range() {
    let (mut fm, mut mem) = setup(32);
    let pt = PageTable::<UserMode, PageTableEntry>::empty(&mut mem, &mut fm);
    let frame = FrameAllocOptions::new().alloc_frame(&mut fm, &mut linear_mem(64)).unwrap();
    let frame_pa = frame.start_paddr();
    let page: Frame<Unknown> = Frame::from_raw(frame.into_raw());
    let prop = PageProperty::new(PageFlags::RW());
    let mut c = pt.cursor_mut(&mem, &fm, &(0x20_0000..0x20_1000)).unwrap();
    assert!(c.map(&mut mem, &mut fm, page, prop).is_none());

    // The range starts in the empty 2 MiB slot below the page.
    let mut c = pt.cursor_mut(&mem, &fm, &(0x1f_f000..0x20_2000)).unwrap();
    match c.take_next(&mut mem, &mut fm, 0x3000) {
        PageTableItem::Mapped { va, page, .. } => {
            assert_eq!(va, 0x20_0000);
            assert_eq!(page.start_paddr(), frame_pa);
        }
        _ => panic!("expected the mapped frame"),
    }
    assert_eq!(c.virt_addr(), 0x20_1000);
    assert_eq!(pt.query(&mem, &fm, 0x20_0010), None);
}

#[test]
fn protect_next_takes_a_length_in_bytes_and_stops_at_its_end() {
    let (mut fm, mut mem) = setup(32);
    let pt = PageTable::<UserMode, PageTableEntry>::empty(&mut mem, &mut fm);
    let frame = FrameAllocOptions::new().alloc_frame(&mut fm, &mut linear_mem(64)).unwrap();
    let page: Frame<Unknown> = Frame::from_raw(frame.into_raw());
    let prop = PageProperty::new(PageFlags::RW());
    let mut c = pt.cursor_mut(&mem, &fm, &(0x4000..0x8000)).unwrap();
    assert!(c.map(&mut mem, &mut fm, page, prop).is_none());

    let ro = |p: PageProperty| PageProperty { flags: PageFlags::R(), ..p };
    let mut c = pt.cursor_mut(&mem, &fm, &(0x4000..0x8000)).unwrap();
    assert_eq!(c.protect_next(&mut mem, &mut fm, 0x1001, &ro), Some(0x4000..0x5000));
    assert_eq!(c.protect_next(&mut mem, &mut fm, 0x2000, &ro), None);
    assert_eq!(c.virt_addr(), 0x7000);
}

#[test]
fn copy_from_stops_once_the_destination_reaches_its_end() {
    let (mut fm, mut mem) = setup(32);
    let parent = PageTable::<UserMode, PageTableEntry>::empty(&mut mem, &mut fm);
    let child = PageTable::<UserMode, PageTableEntry>::empty(&mut mem, &mut fm);
    let mut vm = linear_mem(64);
    let f1 = FrameAllocOptions::new().alloc_frame(&mut fm, &mut vm).unwrap();
    let f2 = FrameAllocOptions::new().alloc_frame(&mut fm, &mut vm).unwrap();
    let pa1 = f1.start_paddr();
    let pa2 = f2.start_paddr();
    let p1: Frame<Unknown> = Frame::from_raw(f1.into_raw());
    let p2: Frame<Unknown> = Frame::from_raw(f2.into_raw());
    let rw = PageProperty::new(PageFlags::RW());
    let mut c = parent.cursor_mut(&mem, &fm, &(0x4000..0x8000)).unwrap();
    assert!(c.map(&mut mem, &mut fm, p1, rw).is_none());
    assert!(c.map(&mut mem, &mut fm, p2, rw).is_none());
    let rc1 = Frame::<Unknown>::from_raw(pa1).reference_count(&fm);
    let rc2 = Frame::<Unknown>::from_raw(pa2).reference_count(&fm);

    // The destination starts a page below the source: after copying the
    // first page it lands at its own end and copying stops.
    let ro = |p: PageProperty| PageProperty { flags: PageFlags::R(), ..p };
    let mut src = parent.cursor_mut(&mem, &fm, &(0x4000..0x8000)).unwrap();
    let mut dst = child.cursor_mut(&mem, &fm, &(0x3000..0x8000)).unwrap();
    dst.copy_from(&mut src, &mut mem, &mut fm, 0x2000, &ro);
    assert_eq!(src.virt_addr(), 0x6000);
    assert_eq!(dst.virt_addr(), 0x5000);
    let ro_prop = PageProperty::new(PageFlags::R());
    assert_eq!(parent.query(&mem, &fm, 0x4010), Some((pa1 + 0x10, ro_prop)));
    assert_eq!(child.query(&mem, &fm, 0x4010), Some((pa1 + 0x10, ro_prop)));
    assert_eq!(parent.query(&mem, &fm, 0x5010), Some((pa2 + 0x10, rw)));
    assert_eq!(child.query(&mem, &fm, 0x5010), None);
    assert_eq!(Frame::<Unknown>::from_raw(pa1).reference_count(&fm), rc1 + 1);
    assert_eq!(Frame::<Unknown>::from_raw(pa2).reference_count(&fm), rc2);
}
