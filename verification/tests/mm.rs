use ostd_mm::mm::page_prop::{CachePolicy, PageFlags, PageProperty, PrivilegedPageFlags};
use ostd_mm::mm::{
    align_down, align_up, is_page_aligned, linear_v2p, nr_base_per_page, nr_subpage_per_huge, page_size,
    paddr_to_vaddr, should_map_as_tracked, LINEAR_MAPPING_BASE_VADDR, VMALLOC_BASE_VADDR,
};

#[test]
fn page_sizes_of_the_levels() {
    assert_eq!(nr_subpage_per_huge(), 512);
    assert_eq!(page_size(1), 0x1000);
    assert_eq!(page_size(2), 0x20_0000);
    assert_eq!(page_size(3), 0x4000_0000);
    assert_eq!(page_size(4), 0x80_0000_0000);
    assert_eq!(nr_base_per_page(1), 1);
    assert_eq!(nr_base_per_page(2), 512);
}

#[test]
fn page_alignment() {
    assert!(is_page_aligned(0));
    assert!(is_page_aligned(0x3000));
    assert!(!is_page_aligned(0x3001));
    assert_eq!(align_down(0x1fff, 0x1000), 0x1000);
    assert_eq!(align_down(0x2000, 0x1000), 0x2000);
    assert_eq!(align_up(0x1001, 0x1000), 0x2000);
    assert_eq!(align_up(0x2000, 0x1000), 0x2000);
    assert_eq!(align_up(0, 8), 0);
}

#[test]
fn linear_mapping_translation() {
    assert_eq!(paddr_to_vaddr(0x1234), LINEAR_MAPPING_BASE_VADDR + 0x1234);
    assert_eq!(linear_v2p(LINEAR_MAPPING_BASE_VADDR + 0x1234), Some(0x1234));
    assert_eq!(linear_v2p(VMALLOC_BASE_VADDR), None);
    assert_eq!(linear_v2p(0x1000), None);
    assert_eq!(linear_v2p(paddr_to_vaddr(0x42_0000)), Some(0x42_0000));
}

#[test]
fn tracked_mappings_outside_linear_and_vmalloc() {
    assert!(!should_map_as_tracked(LINEAR_MAPPING_BASE_VADDR));
    assert!(!should_map_as_tracked(VMALLOC_BASE_VADDR + 0x1000));
    assert!(should_map_as_tracked(0x1000));
    assert!(should_map_as_tracked(0xffff_e000_0000_0000));
}

#[test]
fn page_flags_set_operations() {
    let rw = PageFlags::RW();
    assert_eq!(rw.bits(), PageFlags::R().union(PageFlags::W()).bits());
    assert!(rw.contains(PageFlags::W()));
    assert!(!rw.contains(PageFlags::X()));
    assert_eq!(PageFlags::RWX().difference(PageFlags::X()), rw);
    assert_eq!(PageFlags::empty().bits(), 0);
    assert_eq!(PageFlags::ACCESSED().union(PageFlags::DIRTY()).bits(), 0b11000);
}

#[test]
fn page_property_constructors() {
    let p = PageProperty::new(PageFlags::RX());
    assert_eq!(p.flags, PageFlags::RX());
    assert_eq!(p.priv_flags, PrivilegedPageFlags::USER());
    let a = PageProperty::new_absent();
    assert_eq!(a.flags.bits(), 0);
    assert_eq!(a.priv_flags.bits(), 0);
    assert_ne!(CachePolicy::Writeback, CachePolicy::Uncacheable);
}
