//! The page table entry of the supported architecture.

use vstd::prelude::*;

use super::PageTableEntryTrait;
use crate::mm::{page_prop::PageProperty, Paddr, PagingLevel};

verus! {

/// A page table entry: whether it is present, whether it maps a page
/// (rather than pointing to a child table), the physical address and the
/// page property.
///
/// The all-zero entry is absent.
#[derive(Clone, Copy, Debug, PartialEq, Eq, Structural)]
pub struct PageTableEntry {
    pub present: bool,
    pub last: bool,
    pub paddr: Paddr,
    pub prop: PageProperty,
}

impl PageTableEntryTrait for PageTableEntry {
    open spec fn spec_present(&self) -> bool {
        self.present
    }

    open spec fn spec_paddr(&self) -> Paddr {
        self.paddr
    }

    open spec fn spec_prop(&self) -> PageProperty {
        self.prop
    }

    open spec fn spec_last(&self, level: PagingLevel) -> bool {
        self.last
    }

    fn new_absent() -> (r: Self)
        ensures
            !r.present,
            !r.last,
            r.paddr == 0,
            r.prop.flags.bits == 0,
            r.prop.priv_flags.bits == 0,
    {
        PageTableEntry { present: false, last: false, paddr: 0, prop: PageProperty::new_absent() }
    }

    fn is_present(&self) -> (r: bool) {
        self.present
    }

    fn new_page(paddr: Paddr, level: PagingLevel, prop: PageProperty) -> (r: Self) {
        PageTableEntry { present: true, last: true, paddr, prop }
    }

    fn new_pt(paddr: Paddr) -> (r: Self) {
        PageTableEntry { present: true, last: false, paddr, prop: PageProperty::new_absent() }
    }

    fn paddr(&self) -> (r: Paddr) {
        self.paddr
    }

    fn prop(&self) -> (r: PageProperty) {
        self.prop
    }

    fn set_prop(&mut self, prop: PageProperty) {
        if self.present {
            self.prop = prop;
        }
    }

    fn is_last(&self, level: PagingLevel) -> (r: bool) {
        self.last
    }
}

} // verus!
