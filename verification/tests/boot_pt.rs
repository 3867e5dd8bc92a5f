use core::marker::PhantomData;

use ostd_mm::mm::frame::allocator::{init, MemoryRegion, MemoryRegionType};
use ostd_mm::mm::page_prop::{PageFlags, PageProperty};
use ostd_mm::mm::page_table::boot_pt::BootPageTable;
use ostd_mm::mm::page_table::node::PageTableMem;
use ostd_mm::mm::page_table::page_walk;
use ostd_mm::mm::page_table::pte::PageTableEntry;
use ostd_mm::mm::PAGE_SIZE;

fn boot_setup(nr_frames: usize) -> (ostd_mm::mm::frame::allocator::CountingFrameAllocator, PageTableMem<PageTableEntry>, BootPageTable<PageTableEntry>) {
    let regions = vec![MemoryRegion { base: 0, len: (nr_frames as u64) * 4096, typ: MemoryRegionType::Usable }];
    let mut alloc = init(&regions);
    let mem = PageTableMem::new(nr_frames);
    let root = alloc.alloc_frames(1).unwrap();
    let boot_pt = BootPageTable { root_pt: root, _pretend_to_use: PhantomData };
    (alloc, mem, boot_pt)
}

#[test]
fn test_boot_pt_map_protect() {
    let (mut alloc, mut mem, mut boot_pt) = boot_setup(32);
    let root_paddr = boot_pt.root_address();
    assert_eq!(root_paddr, (boot_pt.root_pt as u64) * PAGE_SIZE);

    let from1 = 0x1000;
    let to1 = 0x2;
    let prop1 = PageProperty::new(PageFlags::RW());
    boot_pt.map_base_page(&mut mem, &mut alloc, from1, to1, prop1);
    assert_eq!(page_walk(&mem, root_paddr, from1 + 1), Some(((to1 as u64) * PAGE_SIZE + 1, prop1)));
    boot_pt.protect_base_page(&mut mem, &mut alloc, from1, &|prop: PageProperty| PageProperty { flags: PageFlags::RX(), ..prop });
    assert_eq!(
        page_walk(&mem, root_paddr, from1 + 1),
        Some(((to1 as u64) * PAGE_SIZE + 1, PageProperty::new(PageFlags::RX())))
    );

    let from2 = 0x2000;
    let to2 = 0x3;
    let prop2 = PageProperty::new(PageFlags::RX());
    boot_pt.map_base_page(&mut mem, &mut alloc, from2, to2, prop2);
    assert_eq!(page_walk(&mem, root_paddr, from2 + 2), Some(((to2 as u64) * PAGE_SIZE + 2, prop2)));
    boot_pt.protect_base_page(&mut mem, &mut alloc, from2, &|prop: PageProperty| PageProperty { flags: PageFlags::RW(), ..prop });
    assert_eq!(
        page_walk(&mem, root_paddr, from2 + 2),
        Some(((to2 as u64) * PAGE_SIZE + 2, PageProperty::new(PageFlags::RW())))
    );
}

#[test]
fn boot_pt_mapping_leaves_other_pages_unmapped() {
    let (mut alloc, mut mem, mut boot_pt) = boot_setup(32);
    let root_paddr = boot_pt.root_address();
    let prop = PageProperty::new(PageFlags::RW());
    boot_pt.map_base_page(&mut mem, &mut alloc, 0x40_0000, 5, prop);
    assert_eq!(page_walk(&mem, root_paddr, 0x40_0fff), Some((5 * PAGE_SIZE + 0xfff, prop)));
    assert_eq!(page_walk(&mem, root_paddr, 0x40_1000), None);
    assert_eq!(page_walk(&mem, root_paddr, 0x3f_f000), None);
}

#[test]
fn boot_pt_from_current_pt_clears_avail1_in_links() {
    let (mut alloc, mut mem, mut boot_pt) = boot_setup(32);
    let root_paddr = boot_pt.root_address();
    let prop = PageProperty::new(PageFlags::RW());
    boot_pt.map_base_page(&mut mem, &mut alloc, 0x1000, 7, prop);
    let link = mem.read_pte_frame(boot_pt.root_pt, 0);
    assert!(link.present && !link.last);
    assert!(link.prop.flags.contains(PageFlags::AVAIL1()));

    let again = BootPageTable::<PageTableEntry>::from_current_pt(&mut mem, root_paddr);
    assert_eq!(again.root_pt, boot_pt.root_pt);
    let link = mem.read_pte_frame(again.root_pt, 0);
    assert!(link.present && !link.last);
    assert!(!link.prop.flags.contains(PageFlags::AVAIL1()));
    // The leaf keeps its property and the mapping stays.
    assert_eq!(page_walk(&mem, root_paddr, 0x1010), Some((7 * PAGE_SIZE + 0x10, prop)));
}

#[test]
fn boot_pt_drop_gives_back_the_nodes_it_allocated() {
    let (mut alloc, mut mem, mut boot_pt) = boot_setup(32);
    let root = boot_pt.root_pt;
    let root_paddr = boot_pt.root_address();
    let before = alloc.mem_available();
    let prop = PageProperty::new(PageFlags::RW());
    boot_pt.map_base_page(&mut mem, &mut alloc, 0x1000, 7, prop);
    boot_pt.map_base_page(&mut mem, &mut alloc, 0x2000, 8, prop);
    // One node of each level below the root, shared by both pages.
    assert_eq!(alloc.mem_available(), before - 3 * 4096);
    let l3 = (mem.read_pte_frame(root, 0).paddr / PAGE_SIZE) as usize;
    let l2 = (mem.read_pte_frame(l3, 0).paddr / PAGE_SIZE) as usize;
    let l1 = (mem.read_pte_frame(l2, 0).paddr / PAGE_SIZE) as usize;

    boot_pt.drop(&mut mem, &mut alloc);
    assert_eq!(alloc.mem_available(), before);
    // The links are gone; the page entries of the last node stay.
    assert!(!mem.read_pte_frame(root, 0).present);
    assert!(!mem.read_pte_frame(l3, 0).present);
    assert!(!mem.read_pte_frame(l2, 0).present);
    assert!(mem.read_pte_frame(l1, 1).present);
    assert_eq!(page_walk(&mem, root_paddr, 0x1000), None);
    // The frames are free again: the next allocation gets one of them.
    let again = alloc.alloc_frames(1).unwrap();
    assert!(again == l3 || again == l2 || again == l1);
}

#[test]
fn boot_pt_drop_keeps_the_nodes_it_did_not_allocate() {
    let (mut alloc, mut mem, mut boot_pt) = boot_setup(32);
    let root = boot_pt.root_pt;
    let prop = PageProperty::new(PageFlags::RW());
    boot_pt.map_base_page(&mut mem, &mut alloc, 0x1000, 7, prop);
    // Taken as the current table, its links lose the AVAIL1 mark: its nodes
    // now belong to whoever set it up.
    let root_paddr = boot_pt.root_address();
    let current = BootPageTable::<PageTableEntry>::from_current_pt(&mut mem, root_paddr);
    let before = alloc.mem_available();
    current.drop(&mut mem, &mut alloc);
    assert_eq!(alloc.mem_available(), before);
    assert!(!mem.read_pte_frame(root, 0).present);
}

#[test]
fn boot_pt_protect_splits_a_huge_page_keeping_its_translation() {
    let (mut alloc, mut mem, mut boot_pt) = boot_setup(32);
    let root = boot_pt.root_pt;
    let root_paddr = boot_pt.root_address();
    let prop = PageProperty::new(PageFlags::RW());
    // Build the level-3 node, then put a 1 GiB page in its entry 1.
    boot_pt.map_base_page(&mut mem, &mut alloc, 0x1000, 7, prop);
    let l3 = (mem.read_pte_frame(root, 0).paddr / PAGE_SIZE) as usize;
    let huge = 0x4000_0000u64;
    mem.write_pte_at(l3, 1, PageTableEntry { present: true, last: true, paddr: huge, prop });
    let va = 0x4000_0000 + 5 * 0x20_0000 + 7 * 0x1000;
    let inside = huge + 5 * 0x20_0000 + 7 * 0x1000;
    assert_eq!(page_walk(&mem, root_paddr, va + 1), Some((inside + 1, prop)));

    boot_pt.protect_base_page(&mut mem, &mut alloc, va, &|p: PageProperty| PageProperty { flags: PageFlags::RX(), ..p });
    // The page keeps its physical address and gets the new property.
    assert_eq!(page_walk(&mem, root_paddr, va + 1), Some((inside + 1, PageProperty::new(PageFlags::RX()))));
    // The rest of the huge page keeps its translation and property.
    assert_eq!(page_walk(&mem, root_paddr, va + 0x1000), Some((inside + 0x1000, prop)));
    assert_eq!(page_walk(&mem, root_paddr, 0x4000_0000 + 9 * 0x20_0000 + 3), Some((huge + 9 * 0x20_0000 + 3, prop)));
}
