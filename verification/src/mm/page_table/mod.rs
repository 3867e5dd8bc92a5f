//! Multi-level page tables: index arithmetic, the page table entry
//! interface, the memory that holds page table entries, and the software
//! page walk.

use vstd::prelude::*;

pub mod boot_pt;
pub mod cursor;
pub mod debug;
pub mod node;
pub mod pte;

use core::marker::PhantomData;
use core::ops::Range;

use crate::mm::{
    lemma_log2_512, lemma_page_size_values, nr_subpage_per_huge, page_size, page_size_spec, u64_ilog2,
    frame::{FrameManager, REF_COUNT_MAX}, page_prop::PageProperty, Paddr, PagingLevel, Vaddr, BASE_PAGE_SIZE, NR_LEVELS,
    PAGE_SIZE, MAX_USERSPACE_VADDR, KERNEL_VADDR_RANGE_START, KERNEL_VADDR_RANGE_END,
};
use node::{frame_of, Child, MapTrackingStatus, PageTableMem, RawPageTableNode};
use cursor::{descent_ok, guard_of, lemma_guard_lookup, nodes_above_kept, pages_left, range_ok, subtree_untracked, ps, Cursor, CursorMut};

verus! {

/// Errors of page table operations.
#[derive(Clone, Copy, PartialEq, Eq, Debug, Structural)]
pub enum PageTableError {
    /// The provided virtual address range is invalid.
    InvalidVaddrRange(Vaddr, Vaddr),
    /// The provided virtual address is invalid.
    InvalidVaddr(Vaddr),
    /// Using virtual address not aligned.
    UnalignedVaddr,
}

/// The number of bits of a virtual address that index the entries of one
/// page table node.
pub fn nr_pte_index_bits() -> (r: u64)
    ensures
        r == 9,
{
    let bits = u64_ilog2(nr_subpage_per_huge());
    proof { lemma_log2_512(bits); }
    bits as u64
}

/// The index of the entry that covers `va` in a node of the given level,
/// mathematically.
pub open spec fn pte_index_spec(va: Vaddr, level: int) -> nat {
    ((va as nat / page_size_spec(level)) % 512) as nat
}

/// The index of the entry that covers `va` in a node of the given level.
///
/// The bits above the page offset are split into 9-bit fields, one per
/// level; the field of `level` is the index.
pub fn pte_index(va: Vaddr, level: PagingLevel) -> (r: usize)
    requires
        1 <= level <= 6,
    ensures
        r == pte_index_spec(va, level as int),
        r < 512,
{
    let base_bits = u64_ilog2(BASE_PAGE_SIZE);
    proof { lemma_log2_4096(base_bits); }
    let shift = base_bits as u64 + nr_pte_index_bits() * (level as u64 - 1);
    let r = (va >> shift) & (nr_subpage_per_huge() - 1);
    proof {
        lemma_page_size_values();
        assert((va >> 12u64) & 511u64 == (va / 0x1000) % 512) by (bit_vector);
        assert((va >> 21u64) & 511u64 == (va / 0x20_0000) % 512) by (bit_vector);
        assert((va >> 30u64) & 511u64 == (va / 0x4000_0000) % 512) by (bit_vector);
        assert((va >> 39u64) & 511u64 == (va / 0x80_0000_0000) % 512) by (bit_vector);
        assert((va >> 48u64) & 511u64 == (va / 0x1_0000_0000_0000) % 512) by (bit_vector);
        assert((va >> 57u64) & 511u64 == (va / 0x200_0000_0000_0000) % 512) by (bit_vector);
    }
    r as usize
}

/// The logarithm of the base page size is 12.
pub proof fn lemma_log2_4096(r: u32)
    requires
        vstd::arithmetic::power2::pow2(r as nat) <= 4096 < vstd::arithmetic::power2::pow2(r as nat + 1),
    ensures
        r == 12,
{
    vstd::arithmetic::power2::lemma2_to64();
    if r < 12 {
        vstd::arithmetic::power2::lemma_pow2_strictly_increases((r + 1) as nat, 12);
    } else if r > 12 {
        vstd::arithmetic::power2::lemma_pow2_strictly_increases(12, r as nat);
    }
}

/// The interface of an architecture's page table entries.
///
/// An entry is absent, or present and then either a leaf (it maps a page)
/// or a pointer to a child page table. Entries built by [`Self::new_page`]
/// are leaves at every level; entries built by [`Self::new_pt`] are leaves
/// at no level. An all-zero entry is absent.
pub trait PageTableEntryTrait: Sized + Copy {
    /// Whether the entry maps something.
    spec fn spec_present(&self) -> bool;

    /// The physical address recorded in the entry.
    spec fn spec_paddr(&self) -> Paddr;

    /// The page property recorded in the entry.
    spec fn spec_prop(&self) -> PageProperty;

    /// Whether the entry maps a page (rather than a child page table) when
    /// found in a node of `level`.
    spec fn spec_last(&self, level: PagingLevel) -> bool;

    /// Creates an absent entry.
    fn new_absent() -> (r: Self)
        ensures
            !r.spec_present(),
            forall|l: PagingLevel| !#[trigger] r.spec_last(l),
    ;

    /// Whether the entry maps something.
    fn is_present(&self) -> (r: bool)
        ensures
            r == self.spec_present(),
    ;

    /// Creates an entry that maps the page at `paddr` with `prop`.
    fn new_page(paddr: Paddr, level: PagingLevel, prop: PageProperty) -> (r: Self)
        ensures
            r.spec_present(),
            r.spec_paddr() == paddr,
            r.spec_prop() == prop,
            forall|l: PagingLevel| #[trigger] r.spec_last(l),
    ;

    /// Creates an entry that points to the child page table at `paddr`.
    fn new_pt(paddr: Paddr) -> (r: Self)
        ensures
            r.spec_present(),
            r.spec_paddr() == paddr,
            forall|l: PagingLevel| !#[trigger] r.spec_last(l),
    ;

    /// The physical address recorded in the entry: of the next-level page
    /// table or of the mapped page.
    fn paddr(&self) -> (r: Paddr)
        ensures
            r == self.spec_paddr(),
    ;

    /// The page property recorded in the entry.
    fn prop(&self) -> (r: PageProperty)
        ensures
            r == self.spec_prop(),
    ;

    /// Sets the page property of a present entry; an absent entry is left
    /// unchanged.
    fn set_prop(&mut self, prop: PageProperty)
        ensures
            old(self).spec_present() ==> {
                &&& final(self).spec_present()
                &&& final(self).spec_paddr() == old(self).spec_paddr()
                &&& final(self).spec_prop() == prop
                &&& forall|l: PagingLevel| #[trigger] final(self).spec_last(l) == old(self).spec_last(l)
            },
            !old(self).spec_present() ==> *final(self) == *old(self),
    ;

    /// Whether the entry maps a page rather than a child page table, given
    /// the level of the node that holds it.
    fn is_last(&self, level: PagingLevel) -> (r: bool)
        ensures
            r == self.spec_last(level),
    ;
}

/// Distinguishes, at compile time, the page tables of the kernel from the
/// page tables of user processes by the range of virtual addresses that
/// they manage.
pub trait PageTableMode: Sized {
    /// The start of the managed virtual address range.
    spec fn range_start() -> Vaddr;

    /// The end (exclusive) of the managed virtual address range.
    spec fn range_end() -> Vaddr;

    /// Whether this is the kernel's mode.
    spec fn kernel() -> bool;

    /// The virtual address range that page tables of this mode manage.
    fn vaddr_range() -> (r: Range<Vaddr>)
        ensures
            r.start == Self::range_start(),
            r.end == Self::range_end(),
    ;

    /// Whether this is the kernel's mode.
    fn is_kernel() -> (r: bool)
        ensures
            r == Self::kernel(),
    ;

    /// The managed range lies below one root entry's worth of the top
    /// bits: all its addresses share the bits above the translated ones.
    proof fn lemma_range_in_one_prefix()
        ensures
            Self::range_start() < Self::range_end(),
            Self::range_start() as int / page_size_spec(NR_LEVELS + 1) as int == (Self::range_end() - 1) as int
                / page_size_spec(NR_LEVELS + 1) as int,
    ;

    /// Whether the given range lies within the managed range.
    fn covers(r: &Range<Vaddr>) -> (b: bool)
        ensures
            b == (Self::range_start() <= r.start && r.end <= Self::range_end()),
    {
        let range = Self::vaddr_range();
        range.start <= r.start && r.end <= range.end
    }
}

/// The mode of user page tables: the lower half of the address space.
#[derive(Clone, Copy, Debug)]
pub struct UserMode {}

impl PageTableMode for UserMode {
    open spec fn range_start() -> Vaddr {
        0
    }

    open spec fn range_end() -> Vaddr {
        MAX_USERSPACE_VADDR
    }

    open spec fn kernel() -> bool {
        false
    }

    proof fn lemma_range_in_one_prefix() {
        lemma_page_size_values();
        assert(page_size_spec(NR_LEVELS + 1) == 0x1_0000_0000_0000);
        assert(0x7fff_ffff_efffint / 0x1_0000_0000_0000int == 0);
    }

    fn vaddr_range() -> (r: Range<Vaddr>) {
        0..MAX_USERSPACE_VADDR
    }

    fn is_kernel() -> (r: bool) {
        false
    }
}

/// The mode of the kernel page table: the upper half of the address space.
#[derive(Clone, Copy, Debug)]
pub struct KernelMode {}

impl PageTableMode for KernelMode {
    open spec fn range_start() -> Vaddr {
        KERNEL_VADDR_RANGE_START
    }

    open spec fn range_end() -> Vaddr {
        KERNEL_VADDR_RANGE_END
    }

    open spec fn kernel() -> bool {
        true
    }

    proof fn lemma_range_in_one_prefix() {
        lemma_page_size_values();
        assert(page_size_spec(NR_LEVELS + 1) == 0x1_0000_0000_0000);
        assert(0xffff_8000_0000_0000int / 0x1_0000_0000_0000int == 0xffff);
        assert(0xffff_ffff_fffe_ffffint / 0x1_0000_0000_0000int == 0xffff);
    }

    fn vaddr_range() -> (r: Range<Vaddr>) {
        KERNEL_VADDR_RANGE_START..KERNEL_VADDR_RANGE_END
    }

    fn is_kernel() -> (r: bool) {
        true
    }
}

/// The offset of `va` in a page of `level`.
pub open spec fn page_offset(va: Vaddr, level: int) -> nat {
    (va as nat % page_size_spec(level)) as nat
}

impl<E: PageTableEntryTrait> PageTableMem<E> {
    /// What the hardware finds for `va` below the node at `pa` of `level`,
    /// reading PTEs only: nothing, or the physical address and property.
    pub open spec fn pte_walk(&self, pa: Paddr, level: int, va: Vaddr) -> Option<(Paddr, PageProperty)>
        decreases level,
    {
        let pte = self.pte(pa, pte_index_spec(va, level) as int);
        if !pte.spec_present() {
            None
        } else if level > 1 && !pte.spec_last(level as PagingLevel) {
            self.pte_walk(pte.spec_paddr(), level - 1, va)
        } else {
            Some(((pte.spec_paddr() + page_offset(va, level)) as Paddr, pte.spec_prop()))
        }
    }

    /// The hardware walk for `va` from the frame at `pa` of `level` reads
    /// only frames that exist and its result address does not overflow.
    pub open spec fn walk_ok(&self, pa: Paddr, level: int, va: Vaddr) -> bool
        decreases level,
    {
        let pte = self.pte(pa, pte_index_spec(va, level) as int);
        &&& 1 <= level <= NR_LEVELS
        &&& pa % PAGE_SIZE == 0
        &&& frame_of(pa) < self.ptes@.len()
        &&& self.ptes@[frame_of(pa)]@.len() == 512
        &&& pte.spec_present() ==> if level > 1 && !pte.spec_last(level as PagingLevel) {
            self.walk_ok(pte.spec_paddr(), level - 1, va)
        } else {
            pte.spec_paddr() + page_size_spec(level) <= u64::MAX + 1
        }
    }
}

/// The translation of `va` that a leaf of the kernel's view gives: the
/// address within the mapped page and its property.
pub open spec fn translate(leaf: (Child, int), va: Vaddr) -> Option<(Paddr, PageProperty)> {
    match leaf.0 {
        Child::Frame(f, prop) => Some(((f.paddr() + page_offset(va, leaf.1)) as Paddr, prop)),
        Child::Untracked(pa, _, prop) => Some(((pa + page_offset(va, leaf.1)) as Paddr, prop)),
        _ => None,
    }
}

/// The offset of an address in a page is below the page size.
proof fn lemma_page_offset_bound(va: Vaddr, level: int)
    requires
        1 <= level <= NR_LEVELS,
    ensures
        page_offset(va, level) < page_size_spec(level),
{
    lemma_page_size_values();
}

/// What the hardware walk finds in well-formed page table memory is what
/// the kernel's view of the page table maps.
pub proof fn lemma_walk_matches_lookup<E: PageTableEntryTrait>(mem: &PageTableMem<E>, fm: &FrameManager, pa: Paddr, level: int, va: Vaddr)
    requires
        fm.wf(),
        mem.wf(fm),
        mem.is_node(pa, level),
    ensures
        mem.walk_ok(pa, level, va),
        mem.pte_walk(pa, level, va) == translate(mem.lookup(pa, level, va), va),
    decreases level,
{
    let k = frame_of(pa);
    let i = pte_index_spec(va, level) as int;
    assert(mem.node_wf(fm, k));
    let rec = mem.node(pa);
    let c = rec.table@[i];
    assert(pte_index_spec(va, level) < 512) by {
        lemma_page_size_values();
    }
    assert(mem.child_ok(fm, c, rec.meta.level, rec.meta.is_tracked));
    assert(entry_matches_at(mem, pa, i, c, rec.meta.level));
    lemma_page_offset_bound(va, level);
    match c {
        Child::PageTable(raw) => {
            lemma_walk_matches_lookup(mem, fm, raw.raw, level - 1, va);
        },
        Child::Frame(f, _) => {
            f.lemma_slot_ok_bounds(fm);
            f.lemma_well_placed_bounds();
            lemma_page_size_values();
        },
        _ => {},
    }
}

/// The PTE at index `i` of the frame at `pa` represents `c` at `level`.
pub open spec fn entry_matches_at<E: PageTableEntryTrait>(mem: &PageTableMem<E>, pa: Paddr, i: int, c: Child, level: PagingLevel) -> bool {
    node::entry_matches(mem.pte(pa, i), c, level)
}

/// The low bits of an address below a page size are its offset in the page.
proof fn lemma_mask_is_offset(va: Vaddr, level: int)
    requires
        1 <= level <= NR_LEVELS,
    ensures
        va & ((page_size_spec(level) - 1) as u64) == page_offset(va, level),
{
    lemma_page_size_values();
    assert(va & 0xfffu64 == va % 0x1000) by (bit_vector);
    assert(va & 0x1f_ffffu64 == va % 0x20_0000) by (bit_vector);
    assert(va & 0x3fff_ffffu64 == va % 0x4000_0000) by (bit_vector);
    assert(va & 0x7f_ffff_ffffu64 == va % 0x80_0000_0000) by (bit_vector);
}

/// A software walk of the page table rooted at `root_paddr`, as the MMU
/// translates `vaddr`: the physical address and the property of the
/// mapping, or `None` when `vaddr` is not mapped.
pub fn page_walk<E: PageTableEntryTrait>(mem: &PageTableMem<E>, root_paddr: Paddr, vaddr: Vaddr) -> (r: Option<(Paddr, PageProperty)>)
    requires
        mem.walk_ok(root_paddr, NR_LEVELS as int, vaddr),
    ensures
        r == mem.pte_walk(root_paddr, NR_LEVELS as int, vaddr),
{
    let mut cur_level: PagingLevel = NR_LEVELS;
    let mut cur_pa = root_paddr;
    proof {
        lemma_page_size_values();
    }
    let mut cur_pte = mem.read_pte_at(cur_pa, pte_index(vaddr, cur_level));
    while cur_level > 1
        invariant
            1 <= cur_level <= NR_LEVELS,
            mem.walk_ok(cur_pa, cur_level as int, vaddr),
            cur_pte == mem.pte(cur_pa, pte_index_spec(vaddr, cur_level as int) as int),
            mem.pte_walk(root_paddr, NR_LEVELS as int, vaddr) == mem.pte_walk(cur_pa, cur_level as int, vaddr),
        ensures
            1 <= cur_level <= NR_LEVELS,
            mem.walk_ok(cur_pa, cur_level as int, vaddr),
            cur_pte == mem.pte(cur_pa, pte_index_spec(vaddr, cur_level as int) as int),
            mem.pte_walk(root_paddr, NR_LEVELS as int, vaddr) == mem.pte_walk(cur_pa, cur_level as int, vaddr),
            cur_level == 1 || (cur_pte.spec_present() && cur_pte.spec_last(cur_level)),
        decreases cur_level,
    {
        if !cur_pte.is_present() {
            return None;
        }
        if cur_pte.is_last(cur_level) {
            break;
        }
        proof {
            assert(mem.walk_ok(cur_pte.spec_paddr(), cur_level - 1, vaddr));
        }
        cur_level = cur_level - 1;
        cur_pa = cur_pte.paddr();
        proof {
            lemma_page_size_values();
        }
        cur_pte = mem.read_pte_at(cur_pa, pte_index(vaddr, cur_level));
    }
    if cur_pte.is_present() {
        let size = page_size(cur_level);
        proof {
            lemma_mask_is_offset(vaddr, cur_level as int);
            lemma_page_offset_bound(vaddr, cur_level as int);
            lemma_page_size_values();
        }
        Some((cur_pte.paddr() + (vaddr & (size - 1)), cur_pte.prop()))
    } else {
        None
    }
}

/// A handle to a page table.
///
/// The page table holds the references of the mapped tracked frames.
#[derive(Debug)]
pub struct PageTable<M: PageTableMode, E: PageTableEntryTrait> {
    pub root: node::RawPageTableNode,
    pub _phantom: PhantomData<(M, E)>,
}

impl<M: PageTableMode, E: PageTableEntryTrait> PageTable<M, E> {
    /// What the page table maps at `va`: the leaf of the walk from the root
    /// and its level.
    pub open spec fn lookup_spec(&self, mem: &PageTableMem<E>, va: Vaddr) -> (Child, int) {
        mem.lookup(self.root.raw, NR_LEVELS as int, va)
    }

    /// The root is a node of the highest level in `mem`.
    pub open spec fn wf(&self, mem: &PageTableMem<E>) -> bool {
        &&& self.root.level == NR_LEVELS
        &&& mem.is_node(self.root.raw, NR_LEVELS as int)
        &&& mem.node(self.root.raw).prefix@ == 0
    }
}

/// What a walk from a node finds does not change when only a frame that
/// held no node changes.
pub proof fn lemma_lookup_fresh_change<E: PageTableEntryTrait>(
    mem1: &PageTableMem<E>,
    mem2: &PageTableMem<E>,
    fm: &FrameManager,
    k: int,
    pa: Paddr,
    level: int,
    va: Vaddr,
)
    requires
        fm.wf(),
        mem1.wf(fm),
        0 <= k < mem1.nodes@.len(),
        mem1.nodes@[k] is None,
        mem1.same_except(mem2, k),
        mem1.is_node(pa, level),
    ensures
        mem2.lookup(pa, level, va) == mem1.lookup(pa, level, va),
    decreases level,
{
    let f = frame_of(pa);
    assert(f != k);
    assert(mem2.nodes@[f] == mem1.nodes@[f]);
    assert(mem1.node_wf(fm, f));
    let i = pte_index_spec(va, level) as int;
    assert(0 <= i < 512) by {
        lemma_page_size_values();
    }
    let c = mem1.node(pa).table@[i];
    assert(mem1.child_ok(fm, c, mem1.node(pa).meta.level, mem1.node(pa).meta.is_tracked));
    match c {
        Child::PageTable(raw) => {
            if level > 1 {
                lemma_lookup_fresh_change(mem1, mem2, fm, k, raw.raw, level - 1, va);
            }
        },
        _ => {},
    }
}

impl<M: PageTableMode, E: PageTableEntryTrait> PageTable<M, E> {
    /// Creates a new empty page table: a root node with no entry. Only for
    /// the kernel page table and IOMMU page tables.
    ///
    /// Running out of memory panics (excluded here).
    pub fn empty(mem: &mut PageTableMem<E>, fm: &mut FrameManager) -> (r: Self)
        requires
            old(fm).wf(),
            old(mem).wf(old(fm)),
            old(fm).can_alloc(1),
        ensures
            final(fm).wf(),
            final(mem).wf(final(fm)),
            r.wf(final(mem)),
            final(mem).node(r.root.raw).meta.is_tracked == MapTrackingStatus::NotApplicable,
            old(mem).nodes@[frame_of(r.root.raw)] is None,
            old(mem).same_except(final(mem), frame_of(r.root.raw)),
            forall|va: Vaddr| #[trigger] r.lookup_spec(final(mem), va) == (Child::Empty, NR_LEVELS as int),
            forall|n: nat| old(fm).can_alloc(n + 1) ==> #[trigger] final(fm).can_alloc(n),
    {
        let root = RawPageTableNode::alloc_empty_pt(NR_LEVELS, MapTrackingStatus::NotApplicable, Ghost(0), mem, fm);
        let r = PageTable { root, _phantom: PhantomData };
        proof {
            assert forall|va: Vaddr| #[trigger] r.lookup_spec(mem, va) == (Child::Empty, NR_LEVELS as int) by {
                lemma_page_size_values();
                assert(mem.node(root.raw).table@[pte_index_spec(va, NR_LEVELS as int) as int] is Empty);
            }
        }
        r
    }

    /// The physical address of the root node.
    pub fn root_paddr(&self) -> (r: Paddr)
        ensures
            r == self.root.raw,
    {
        self.root.paddr()
    }

    /// Creates a cursor claiming read access to the given range; see
    /// [`Cursor::new`].
    pub fn cursor(&self, mem: &PageTableMem<E>, fm: &FrameManager, va: &Range<Vaddr>) -> (r: Result<Cursor<M, E>, PageTableError>)
        requires
            fm.wf(),
            mem.wf(fm),
            self.wf(mem),
            range_ok::<M>(*va) ==> descent_ok(mem, self.root.raw, NR_LEVELS as int, va.start, va.end),
        ensures
            !(M::range_start() <= va.start && va.end <= M::range_end()) || va.start >= va.end
                ==> r == Err::<Cursor<M, E>, PageTableError>(PageTableError::InvalidVaddrRange(va.start, va.end)),
            M::range_start() <= va.start && va.end <= M::range_end() && va.start < va.end && !(va.start
                % BASE_PAGE_SIZE == 0 && va.end % BASE_PAGE_SIZE == 0)
                ==> r == Err::<Cursor<M, E>, PageTableError>(PageTableError::UnalignedVaddr),
            range_ok::<M>(*va) ==> r is Ok,
            match r {
                Ok(c) => {
                    &&& c.wf(mem)
                    &&& c.va == va.start
                    &&& c.barrier_va == *va
                    &&& c.root == self.root
                    &&& (c.guard_node().raw, c.guard_level as int) == guard_of(mem, self.root.raw, NR_LEVELS as int, va.start, va.end)
                    &&& forall|v: Vaddr| va.start <= v < va.end ==> #[trigger] c.in_guard_range(v) && self.lookup_spec(mem, v)
                        == c.view(mem, v)
                },
                Err(_) => true,
            },
    {
        let r = Cursor::new(self, mem, fm, va);
        proof {
            if let Ok(c) = &r {
                assert forall|v: Vaddr| va.start <= v < va.end implies #[trigger] c.in_guard_range(v) && self.lookup_spec(mem, v)
                    == c.view(mem, v) by {
                    assert(c.in_guard_range(v));
                }
            }
        }
        r
    }

    /// Creates a cursor claiming write access to the given range; see
    /// [`CursorMut::new`].
    pub fn cursor_mut(&self, mem: &PageTableMem<E>, fm: &FrameManager, va: &Range<Vaddr>) -> (r: Result<CursorMut<M, E>, PageTableError>)
        requires
            fm.wf(),
            mem.wf(fm),
            self.wf(mem),
            range_ok::<M>(*va) ==> descent_ok(mem, self.root.raw, NR_LEVELS as int, va.start, va.end),
        ensures
            !(M::range_start() <= va.start && va.end <= M::range_end()) || va.start >= va.end
                ==> r == Err::<CursorMut<M, E>, PageTableError>(PageTableError::InvalidVaddrRange(va.start, va.end)),
            M::range_start() <= va.start && va.end <= M::range_end() && va.start < va.end && !(va.start
                % BASE_PAGE_SIZE == 0 && va.end % BASE_PAGE_SIZE == 0)
                ==> r == Err::<CursorMut<M, E>, PageTableError>(PageTableError::UnalignedVaddr),
            range_ok::<M>(*va) ==> r is Ok,
            match r {
                Ok(c) => {
                    &&& c.0.wf(mem)
                    &&& c.0.va == va.start
                    &&& c.0.barrier_va == *va
                    &&& c.0.root == self.root
                    &&& (c.0.guard_node().raw, c.0.guard_level as int) == guard_of(mem, self.root.raw, NR_LEVELS as int, va.start, va.end)
                    &&& forall|v: Vaddr| va.start <= v < va.end ==> #[trigger] c.0.in_guard_range(v) && self.lookup_spec(mem, v)
                        == c.0.view(mem, v)
                },
                Err(_) => true,
            },
    {
        let r = CursorMut::new(self, mem, fm, va);
        proof {
            if let Ok(c) = &r {
                assert forall|v: Vaddr| va.start <= v < va.end implies #[trigger] c.0.in_guard_range(v) && self.lookup_spec(mem, v)
                    == c.0.view(mem, v) by {
                    assert(c.0.in_guard_range(v));
                }
            }
        }
        r
    }

    /// Maps the virtual range `vaddr` to the physical range `paddr` with
    /// `prop`, using untracked pages; see [`CursorMut::map_pa`].
    ///
    /// Fails as [`Cursor::new`] does for an invalid virtual range.
    pub fn map(
        &self,
        mem: &mut PageTableMem<E>,
        fm: &mut FrameManager,
        vaddr: &Range<Vaddr>,
        paddr: &Range<Paddr>,
        prop: PageProperty,
    ) -> (r: Result<(), PageTableError>)
        requires
            old(fm).wf(),
            old(mem).wf(old(fm)),
            self.wf(old(mem)),
            range_ok::<M>(*vaddr) ==> {
                let g = guard_of(old(mem), self.root.raw, NR_LEVELS as int, vaddr.start, vaddr.end);
                &&& descent_ok(old(mem), self.root.raw, NR_LEVELS as int, vaddr.start, vaddr.end)
                &&& paddr.start <= paddr.end
                &&& paddr.start % PAGE_SIZE == 0
                &&& paddr.end % PAGE_SIZE == 0
                &&& vaddr.start + (paddr.end - paddr.start) <= vaddr.end
                &&& subtree_untracked(old(mem), g.0, g.1)
                &&& old(fm).can_alloc((3 * ((paddr.end - paddr.start) / PAGE_SIZE as int)) as nat)
            },
        ensures
            final(fm).wf(),
            final(mem).wf(final(fm)),
            self.wf(final(mem)),
            !(M::range_start() <= vaddr.start && vaddr.end <= M::range_end()) || vaddr.start >= vaddr.end
                ==> r == Err::<(), PageTableError>(PageTableError::InvalidVaddrRange(vaddr.start, vaddr.end)),
            M::range_start() <= vaddr.start && vaddr.end <= M::range_end() && vaddr.start < vaddr.end && !(vaddr.start
                % BASE_PAGE_SIZE == 0 && vaddr.end % BASE_PAGE_SIZE == 0)
                ==> r == Err::<(), PageTableError>(PageTableError::UnalignedVaddr),
            range_ok::<M>(*vaddr) <==> r is Ok,
            r is Err ==> *final(mem) == *old(mem) && *final(fm) == *old(fm),
            r is Ok ==> forall|v: Vaddr| vaddr.start <= v < vaddr.start + (paddr.end - paddr.start)
                ==> #[trigger] translate(self.lookup_spec(final(mem), v), v) == Some(((paddr.start + (v - vaddr.start)) as Paddr, prop)),
            r is Ok ==> forall|v: Vaddr| vaddr.start + (paddr.end - paddr.start) <= v < vaddr.end
                ==> #[trigger] translate(self.lookup_spec(final(mem), v), v) == translate(self.lookup_spec(old(mem), v), v),
    {
        match self.cursor_mut(mem, fm, vaddr) {
            Ok(mut cursor) => {
                let ghost c0 = cursor.0;
                cursor.map_pa(mem, fm, paddr, prop);
                proof {
                    old(mem).lemma_kept_is_node(mem, self.root.raw, NR_LEVELS as int);
                    M::lemma_range_in_one_prefix();
                    cursor::lemma_page_size_step(NR_LEVELS as int);
                    vstd::arithmetic::div_mod::lemma_div_is_ordered(M::range_start() as int, vaddr.start as int, ps(NR_LEVELS + 1));
                    vstd::arithmetic::div_mod::lemma_div_is_ordered(vaddr.start as int, (vaddr.end - 1) as int, ps(NR_LEVELS + 1));
                    vstd::arithmetic::div_mod::lemma_div_is_ordered((vaddr.end - 1) as int, (M::range_end() - 1) as int, ps(NR_LEVELS + 1));
                    let len = paddr.end - paddr.start;
                    assert forall|v: Vaddr| vaddr.start <= v < vaddr.start + len
                        implies #[trigger] translate(self.lookup_spec(mem, v), v) == Some(((paddr.start + (v - vaddr.start)) as Paddr, prop)) by {
                        lemma_guard_lookup(old(mem), mem, old(fm), self.root.raw, NR_LEVELS as int, vaddr.start, vaddr.end, v);
                        assert(translate(cursor.0.view(mem, v), v) == Some(((paddr.start + (v - vaddr.start)) as Paddr, prop)));
                    }
                    assert forall|v: Vaddr| vaddr.start + len <= v < vaddr.end
                        implies #[trigger] translate(self.lookup_spec(mem, v), v) == translate(self.lookup_spec(old(mem), v), v) by {
                        lemma_guard_lookup(old(mem), mem, old(fm), self.root.raw, NR_LEVELS as int, vaddr.start, vaddr.end, v);
                        assert(c0.in_guard_range(v));
                        assert(translate(cursor.0.view(mem, v), v) == translate(c0.view(old(mem), v), v));
                    }
                }
                Ok(())
            },
            Err(e) => Err(e),
        }
    }

    /// Queries the mapping of a single byte at `vaddr` with a software walk
    /// of the page table, as the MMU does: the physical address and property,
    /// or `None` when nothing maps it.
    pub fn query(&self, mem: &PageTableMem<E>, fm: &FrameManager, vaddr: Vaddr) -> (r: Option<(Paddr, PageProperty)>)
        requires
            fm.wf(),
            mem.wf(fm),
            self.wf(mem),
        ensures
            r == translate(self.lookup_spec(mem, vaddr), vaddr),
    {
        proof {
            lemma_walk_matches_lookup(mem, fm, self.root.raw, NR_LEVELS as int, vaddr);
        }
        page_walk(mem, self.root_paddr(), vaddr)
    }

    /// Creates another handle of the same page table, taking a reference of
    /// the root node. Only for IOMMU page tables.
    pub fn shallow_copy(&self, fm: &mut FrameManager) -> (r: Self)
        requires
            old(fm).wf(),
            self.root.raw % PAGE_SIZE == 0,
            self.root.raw < old(fm).max_paddr(),
            old(fm).in_use(frame_of(self.root.raw)),
            old(fm).ref_count_of(frame_of(self.root.raw)) < REF_COUNT_MAX,
        ensures
            r == *self,
            final(fm).wf(),
            final(fm).allocator_spec() == old(fm).allocator_spec(),
            final(fm).ref_counts() == old(fm).ref_counts().update(
                frame_of(self.root.raw),
                (old(fm).ref_count_of(frame_of(self.root.raw)) + 1) as u32,
            ),
    {
        PageTable { root: self.root.clone_shallow(fm), _phantom: PhantomData }
    }
}

impl<E: PageTableEntryTrait> PageTable<UserMode, E> {
    /// Clears the page table: every entry of the lower (user) half of the
    /// root becomes absent, so that nothing in user space stays mapped.
    ///
    /// The removed children are handed back to no one: their nodes and
    /// frames keep the references that the entries held.
    pub fn clear(&self, mem: &mut PageTableMem<E>, fm: &FrameManager)
        requires
            fm.wf(),
            old(mem).wf(fm),
            self.wf(old(mem)),
        ensures
            final(mem).wf(fm),
            self.wf(final(mem)),
            old(mem).nodes_kept(final(mem)),
            forall|i: int| 0 <= i < 256 ==> #[trigger] final(mem).node(self.root.raw).table@[i] is Empty,
            forall|i: int| 256 <= i < 512 ==> #[trigger] final(mem).node(self.root.raw).table@[i]
                == old(mem).node(self.root.raw).table@[i],
            forall|va: Vaddr| pte_index_spec(va, NR_LEVELS as int) < 256 ==> #[trigger] self.lookup_spec(final(mem), va)
                == (Child::Empty, NR_LEVELS as int),
    {
        let root_node = self.root.lock();
        let ghost kk = frame_of(self.root.raw);
        proof {
            mem.lemma_wf_shape(fm);
            assert(old(mem).nodes_kept(mem)) by {
                assert(old(mem).same_except(mem, kk));
                old(mem).lemma_same_except_kept(mem, kk);
            }
        }
        let mut i: usize = 0;
        while i < 256
            invariant
                i <= 256,
                fm.wf(),
                mem.wf(fm),
                mem.shape_ok(),
                root_node.page == self.root,
                self.root.level == NR_LEVELS,
                kk == frame_of(self.root.raw),
                mem.is_node(self.root.raw, NR_LEVELS as int),
                old(mem).nodes_kept(mem),
                forall|j: int| 0 <= j < i ==> #[trigger] mem.node(self.root.raw).table@[j] is Empty,
                forall|j: int| i <= j < 512 ==> #[trigger] mem.node(self.root.raw).table@[j]
                    == old(mem).node(self.root.raw).table@[j],
            decreases 256 - i,
        {
            let root_entry = root_node.entry(mem, i);
            proof {
                assert(mem.node_wf(fm, kk));
                let c = mem.node(self.root.raw).table@[i as int];
                assert(node::entry_matches(mem.ptes@[kk]@[i as int], c, NR_LEVELS));
            }
            if !root_entry.is_none() {
                let ghost mem_b = *mem;
                let _old = root_entry.replace(mem, fm, Child::Empty);
                proof {
                    mem_b.lemma_same_except_kept(mem, kk);
                    old(mem).lemma_nodes_kept_trans(&mem_b, mem);
                    mem.lemma_wf_shape(fm);
                }
            }
            i = i + 1;
        }
        proof {
            assert forall|va: Vaddr| pte_index_spec(va, NR_LEVELS as int) < 256 implies #[trigger] self.lookup_spec(mem, va)
                == (Child::Empty, NR_LEVELS as int) by {
                lemma_page_size_values();
            }
        }
    }
}

impl<E: PageTableEntryTrait> PageTable<KernelMode, E> {
    /// Creates a new user page table: a copy of the kernel page table that
    /// shares all kernel mappings (the upper half of the root's entries) and
    /// maps nothing in user space. This is the only way to create a user
    /// page table.
    ///
    /// Running out of memory panics (excluded here).
    pub fn create_user_page_table(&self, mem: &mut PageTableMem<E>, fm: &mut FrameManager) -> (r: PageTable<UserMode, E>)
        requires
            old(fm).wf(),
            old(mem).wf(old(fm)),
            self.wf(old(mem)),
            old(mem).node(self.root.raw).meta.is_tracked == MapTrackingStatus::NotApplicable,
            old(fm).can_alloc(1),
            forall|i: int| 256 <= i < 512 ==> match #[trigger] old(mem).node(self.root.raw).table@[i] {
                Child::PageTable(raw) => old(fm).ref_count_of(frame_of(raw.raw)) + 256 < REF_COUNT_MAX,
                _ => true,
            },
        ensures
            final(fm).wf(),
            final(mem).wf(final(fm)),
            self.wf(final(mem)),
            r.wf(final(mem)),
            old(mem).nodes@[frame_of(r.root.raw)] is None,
            forall|i: int| 256 <= i < 512 ==> #[trigger] final(mem).node(r.root.raw).table@[i] == old(mem).node(self.root.raw).table@[i],
            forall|i: int| 0 <= i < 256 ==> #[trigger] final(mem).node(r.root.raw).table@[i] is Empty,
            forall|va: Vaddr| #[trigger] self.lookup_spec(final(mem), va) == self.lookup_spec(old(mem), va),
            forall|va: Vaddr| pte_index_spec(va, NR_LEVELS as int) >= 256 ==> #[trigger] r.lookup_spec(final(mem), va) == self.lookup_spec(final(mem), va),
            forall|va: Vaddr| pte_index_spec(va, NR_LEVELS as int) < 256 ==> #[trigger] r.lookup_spec(final(mem), va) == (Child::Empty, NR_LEVELS as int),
    {
        let root_node = self.root.lock();
        let ghost mem0 = *old(mem);
        let new_root = RawPageTableNode::alloc_empty_pt(NR_LEVELS, MapTrackingStatus::NotApplicable, Ghost(0), mem, fm);
        let new_node = new_root.lock();
        let ghost nk = frame_of(new_root.raw);
        let ghost kk = frame_of(self.root.raw);
        let ghost mem1 = *mem;
        proof {
            assert(mem0.node_wf(old(fm), kk));
            assert(kk != nk);
            assert(mem.nodes@[kk] == mem0.nodes@[kk]);
            mem.lemma_wf_shape(fm);
            assert forall|j: int| 256 <= j < 512 implies match #[trigger] mem0.node(self.root.raw).table@[j] {
                Child::PageTable(raw) => fm.ref_count_of(frame_of(raw.raw)) + (512 - 256) < REF_COUNT_MAX,
                _ => true,
            } by {
                match mem0.node(self.root.raw).table@[j] {
                    Child::PageTable(raw) => {
                        assert(mem0.child_ok(old(fm), mem0.node(self.root.raw).table@[j], NR_LEVELS, MapTrackingStatus::NotApplicable));
                        assert(frame_of(raw.raw) != nk);
                    },
                    _ => {},
                }
            }
        }
        let mut i: usize = 256;
        while i < 512
            invariant
                256 <= i <= 512,
                fm.wf(),
                mem.wf(fm),
                mem.shape_ok(),
                fm.nr_frames() == old(fm).nr_frames(),
                root_node.page == self.root,
                self.root.level == NR_LEVELS,
                new_node.page == new_root,
                new_root.level == NR_LEVELS,
                nk == frame_of(new_root.raw),
                kk == frame_of(self.root.raw),
                kk != nk,
                mem0 == *old(mem),
                mem0.nodes@[nk] is None,
                mem0.same_except(mem, nk),
                mem.is_node(new_root.raw, NR_LEVELS as int),
                mem.node(new_root.raw).meta.is_tracked == MapTrackingStatus::NotApplicable,
                mem.node(new_root.raw).prefix@ == 0,
                mem.node(self.root.raw).prefix@ == 0,
                mem.is_node(self.root.raw, NR_LEVELS as int),
                mem.node(self.root.raw) == mem0.node(self.root.raw),
                mem.node(self.root.raw).meta.is_tracked == MapTrackingStatus::NotApplicable,
                forall|j: int| 256 <= j < i ==> #[trigger] mem.node(new_root.raw).table@[j] == mem0.node(self.root.raw).table@[j],
                forall|j: int| 0 <= j < 256 ==> #[trigger] mem.node(new_root.raw).table@[j] is Empty,
                forall|j: int| i <= j < 512 ==> #[trigger] mem.node(new_root.raw).table@[j] is Empty,
                forall|j: int| i <= j < 512 ==> match #[trigger] mem0.node(self.root.raw).table@[j] {
                    Child::PageTable(raw) => fm.ref_count_of(frame_of(raw.raw)) + (512 - i) < REF_COUNT_MAX,
                    _ => true,
                },
            decreases 512 - i,
        {
            let root_entry = root_node.entry(mem, i);
            proof {
                assert(mem.node_wf(fm, kk));
                let c = mem.node(self.root.raw).table@[i as int];
                assert(mem.child_ok(fm, c, NR_LEVELS, MapTrackingStatus::NotApplicable));
                assert(node::entry_matches(mem.ptes@[kk]@[i as int], c, NR_LEVELS));
            }
            if !root_entry.is_none() {
                let ghost mem_b = *mem;
                let ghost fm_b = *fm;
                let owned = root_entry.to_owned(mem, fm);
                proof {
                    assert(mem.child_ok(fm, owned, NR_LEVELS, MapTrackingStatus::NotApplicable));
                    assert(mem.node_wf(fm, nk));
                    assert forall|j: int| i + 1 <= j < 512 implies match #[trigger] mem0.node(self.root.raw).table@[j] {
                        Child::PageTable(raw) => fm.ref_count_of(frame_of(raw.raw)) + (512 - (i + 1)) < REF_COUNT_MAX,
                        _ => true,
                    } by {
                        match mem0.node(self.root.raw).table@[j] {
                            Child::PageTable(raw) => {
                                assert(mem.child_ok(&fm_b, mem.node(self.root.raw).table@[j], NR_LEVELS, MapTrackingStatus::NotApplicable)) by {
                                    assert(mem.node_wf(&fm_b, kk));
                                }
                            },
                            _ => {},
                        }
                    }
                }
                let entry = new_node.entry(mem, i);
                let _ = entry.replace(mem, fm, owned);
                proof {
                    assert(mem.nodes@[kk] == mem_b.nodes@[kk]);
                    assert forall|j: int| 0 <= j < mem0.nodes@.len() && j != nk implies #[trigger] mem.nodes@[j] == mem0.nodes@[j] by {
                        assert(mem_b.nodes@[j] == mem0.nodes@[j]);
                    }
                    assert forall|j: int| 0 <= j < mem0.ptes@.len() && j != nk implies #[trigger] mem.ptes@[j] == mem0.ptes@[j] by {
                        assert(mem_b.ptes@[j] == mem0.ptes@[j]);
                    }
                    assert forall|j: int| 256 <= j < i + 1 implies #[trigger] mem.node(new_root.raw).table@[j] == mem0.node(self.root.raw).table@[j] by {
                        if j < i {
                            assert(mem_b.node(new_root.raw).table@[j] == mem0.node(self.root.raw).table@[j]);
                        }
                    }
                    assert forall|j: int| 0 <= j < 256 implies #[trigger] mem.node(new_root.raw).table@[j] is Empty by {
                        assert(mem_b.node(new_root.raw).table@[j] is Empty);
                    }
                    assert forall|j: int| i + 1 <= j < 512 implies #[trigger] mem.node(new_root.raw).table@[j] is Empty by {
                        assert(mem_b.node(new_root.raw).table@[j] is Empty);
                    }
                }
            } else {
                proof {
                    assert(mem.node(self.root.raw).table@[i as int] is Empty);
                    assert forall|j: int| i + 1 <= j < 512 implies match #[trigger] mem0.node(self.root.raw).table@[j] {
                        Child::PageTable(raw) => fm.ref_count_of(frame_of(raw.raw)) + (512 - (i + 1)) < REF_COUNT_MAX,
                        _ => true,
                    } by {
                    }
                }
            }
            i = i + 1;
        }
        let r = PageTable::<UserMode, E> { root: new_root, _phantom: PhantomData };
        proof {
            assert forall|va: Vaddr| #[trigger] self.lookup_spec(mem, va) == self.lookup_spec(old(mem), va) by {
                lemma_lookup_fresh_change(old(mem), mem, old(fm), nk, self.root.raw, NR_LEVELS as int, va);
            }
            assert forall|va: Vaddr| pte_index_spec(va, NR_LEVELS as int) >= 256 implies #[trigger] r.lookup_spec(mem, va) == self.lookup_spec(mem, va) by {
                lemma_page_size_values();
            }
            assert forall|va: Vaddr| pte_index_spec(va, NR_LEVELS as int) < 256 implies #[trigger] r.lookup_spec(mem, va) == (Child::Empty, NR_LEVELS as int) by {
                lemma_page_size_values();
            }
        }
        r
    }

    /// Whether `c`, in root entry `i` of the kernel page table, is a new
    /// empty node of the level below the root, tracked unless the addresses
    /// it covers start in the linear mapping or the `vmalloc` area.
    pub open spec fn fresh_shared_node(mem: &PageTableMem<E>, c: Child, i: int) -> bool {
        match c {
            Child::PageTable(raw) => {
                &&& mem.is_node(raw.raw, NR_LEVELS - 1)
                &&& mem.node(raw.raw).meta.nr_children == 0
                &&& forall|k: int| 0 <= k < 512 ==> #[trigger] mem.node(raw.raw).table@[k] is Empty
                &&& mem.node(raw.raw).meta.is_tracked == if !(crate::mm::LINEAR_MAPPING_BASE_VADDR <= i * page_size_spec(NR_LEVELS - 1)
                    < crate::mm::FRAME_METADATA_BASE_VADDR) {
                    MapTrackingStatus::TrackedPages
                } else {
                    MapTrackingStatus::Untracked
                }
            },
            _ => false,
        }
    }

    /// Makes the root entries `root_index` of the kernel page table present
    /// by allocating empty child nodes where they are absent, so that the
    /// mappings made there later are shared with all user page tables
    /// created afterwards.
    ///
    /// Indices outside the kernel half of the root panic (excluded here), as
    /// does running out of memory.
    pub fn make_shared_tables(&self, mem: &mut PageTableMem<E>, fm: &mut FrameManager, root_index: Range<usize>)
        requires
            old(fm).wf(),
            old(mem).wf(old(fm)),
            self.wf(old(mem)),
            256 <= root_index.start < 512,
            root_index.end <= 512,
            old(fm).can_alloc((if root_index.start < root_index.end { root_index.end - root_index.start } else { 0int }) as nat),
        ensures
            final(fm).wf(),
            final(mem).wf(final(fm)),
            self.wf(final(mem)),
            old(mem).nodes_kept(final(mem)),
            forall|i: int| root_index.start <= i < root_index.end && old(mem).node(self.root.raw).table@[i] is Empty
                ==> Self::fresh_shared_node(final(mem), #[trigger] final(mem).node(self.root.raw).table@[i], i),
            forall|i: int| 0 <= i < 512 && !(root_index.start <= i < root_index.end) ==> #[trigger] final(mem).node(self.root.raw).table@[i]
                == old(mem).node(self.root.raw).table@[i],
            forall|i: int| root_index.start <= i < root_index.end && !(old(mem).node(self.root.raw).table@[i] is Empty) ==> #[trigger] final(mem).node(self.root.raw).table@[i]
                == old(mem).node(self.root.raw).table@[i],
    {
        let start = root_index.start;
        let end = root_index.end;
        let root_node = self.root.lock();
        let ghost kk = frame_of(self.root.raw);
        proof {
            mem.lemma_wf_shape(fm);
            assert(old(mem).nodes_kept(mem)) by {
                assert(old(mem).same_except(mem, kk));
                old(mem).lemma_same_except_kept(mem, kk);
            }
        }
        let mut i = start;
        while i < end
            invariant
                start <= i,
                start < end ==> i <= end,
                start == root_index.start,
                end == root_index.end,
                256 <= start < 512,
                end <= 512,
                fm.wf(),
                mem.wf(fm),
                mem.shape_ok(),
                root_node.page == self.root,
                self.root.level == NR_LEVELS,
                kk == frame_of(self.root.raw),
                mem.is_node(self.root.raw, NR_LEVELS as int),
                mem.node(self.root.raw).prefix@ == 0,
                old(mem).nodes_kept(mem),
                fm.can_alloc((end - i) as nat) || i >= end,
                start >= end ==> i == start,
                forall|j: int| start <= j < i && old(mem).node(self.root.raw).table@[j] is Empty
                    ==> Self::fresh_shared_node(mem, #[trigger] mem.node(self.root.raw).table@[j], j),
                forall|j: int| 0 <= j < 512 && !(start <= j < i) ==> #[trigger] mem.node(self.root.raw).table@[j]
                    == old(mem).node(self.root.raw).table@[j],
                forall|j: int| start <= j < i && !(old(mem).node(self.root.raw).table@[j] is Empty) ==> #[trigger] mem.node(self.root.raw).table@[j]
                    == old(mem).node(self.root.raw).table@[j],
            decreases end - i,
        {
            let root_entry = root_node.entry(mem, i);
            proof {
                assert(mem.node_wf(fm, kk));
                let c = mem.node(self.root.raw).table@[i as int];
                assert(node::entry_matches(mem.ptes@[kk]@[i as int], c, NR_LEVELS));
            }
            if root_entry.is_none() {
                let nxt_level = NR_LEVELS - 1;
                proof {
                    lemma_page_size_values();
                }
                let is_tracked = if crate::mm::should_map_as_tracked((i as u64) * page_size(nxt_level)) {
                    MapTrackingStatus::TrackedPages
                } else {
                    MapTrackingStatus::Untracked
                };
                let ghost mem_b = *mem;
                proof {
                    vstd::arithmetic::div_mod::lemma_mod_decreases(0, 1);
                    crate::mm::page_table::cursor::lemma_can_alloc_fewer(fm, (end - i) as nat, 1);
                }
                let node = RawPageTableNode::alloc_empty_pt(nxt_level, is_tracked, Ghost(i as int), mem, fm);
                let ghost mem_a = *mem;
                proof {
                    mem_b.lemma_same_except_kept(mem, frame_of(node.raw));
                    assert(mem.nodes@[kk] == mem_b.nodes@[kk]) by {
                        assert(mem_b.node_wf(fm, kk) || true);
                    }
                    mem.lemma_wf_shape(fm);
                    assert(fm.can_alloc((end - i - 1) as nat) || i + 1 >= end) by {
                        if i + 1 < end {
                            assert(mem_b.nodes@.len() == mem.nodes@.len());
                        }
                    }
                }
                let _ = root_entry.replace(mem, fm, Child::PageTable(node));
                proof {
                    mem_a.lemma_same_except_kept(mem, kk);
                    mem_b.lemma_nodes_kept_trans(&mem_a, mem);
                    old(mem).lemma_nodes_kept_trans(&mem_b, mem);
                    mem.lemma_wf_shape(fm);
                    assert forall|j: int| 0 <= j < 512 && j != i implies #[trigger] mem.node(self.root.raw).table@[j]
                        == mem_b.node(self.root.raw).table@[j] by {
                        assert(mem_a.node(self.root.raw).table@[j] == mem_b.node(self.root.raw).table@[j]);
                    }
                    assert(mem.node(self.root.raw).table@[i as int] == Child::PageTable(node));
                    assert(mem.nodes@[frame_of(node.raw)] == mem_a.nodes@[frame_of(node.raw)]);
                    assert(Self::fresh_shared_node(mem, mem.node(self.root.raw).table@[i as int], i as int));
                    assert forall|j: int| start <= j < i && old(mem).node(self.root.raw).table@[j] is Empty
                        implies Self::fresh_shared_node(mem, #[trigger] mem.node(self.root.raw).table@[j], j) by {
                        let c = mem_b.node(self.root.raw).table@[j];
                        assert(Self::fresh_shared_node(&mem_b, c, j));
                        if let Child::PageTable(raw) = c {
                            assert(mem_b.nodes@[frame_of(raw.raw)] is Some);
                            assert(frame_of(raw.raw) != frame_of(node.raw));
                            assert(frame_of(raw.raw) != kk);
                            assert(mem.nodes@[frame_of(raw.raw)] == mem_b.nodes@[frame_of(raw.raw)]);
                        }
                    }
                }
            } else {
                proof {
                    assert(!(mem.node(self.root.raw).table@[i as int] is Empty));
                    assert(mem.child_ok(fm, mem.node(self.root.raw).table@[i as int], NR_LEVELS, mem.node(self.root.raw).meta.is_tracked));
                    if i + 1 < end {
                        crate::mm::page_table::cursor::lemma_can_alloc_fewer(fm, (end - i) as nat, (end - i - 1) as nat);
                    }
                }
            }
            i = i + 1;
        }
    }
}


/// Address `u` lies in one of the ranges `rs`.
pub open spec fn in_ranges(rs: Seq<Range<Vaddr>>, u: Vaddr) -> bool {
    exists|i: int| 0 <= i < rs.len() && (#[trigger] rs[i]).start <= u < rs[i].end
}

/// The translation `t1` is the translation `t0` with a property that `op`
/// gives for the old one; nothing stays unmapped.
pub open spec fn reprotected<F: Fn(PageProperty) -> PageProperty>(op: &F, t0: Option<(Paddr, PageProperty)>, t1: Option<(Paddr, PageProperty)>) -> bool {
    match (t0, t1) {
        (None, None) => true,
        (Some((pa, p)), Some((pa1, q))) => pa1 == pa && op.ensures((p,), q),
        _ => false,
    }
}

impl<M: PageTableMode, E: PageTableEntryTrait> PageTable<M, E> {
    /// Changes the property of every page mapped in `vaddr` with `op`, and
    /// returns the ranges of the pages whose entries changed, in address
    /// order: their TLB entries are to be flushed.
    ///
    /// Fails as [`Cursor::new`] does for an invalid range. Partly covering
    /// a page that cannot be split, running out of memory for splitting
    /// and moving past the end of the address space panic (excluded here).
    pub fn protect_flush_tlb<F: Fn(PageProperty) -> PageProperty>(
        &self,
        mem: &mut PageTableMem<E>,
        fm: &mut FrameManager,
        vaddr: &Range<Vaddr>,
        op: &F,
    ) -> (r: Result<Vec<Range<Vaddr>>, PageTableError>)
        requires
            old(fm).wf(),
            old(mem).wf(old(fm)),
            self.wf(old(mem)),
            forall|p: PageProperty| #[trigger] op.requires((p,)),
            range_ok::<M>(*vaddr) ==> {
                let g = guard_of(old(mem), self.root.raw, NR_LEVELS as int, vaddr.start, vaddr.end);
                &&& descent_ok(old(mem), self.root.raw, NR_LEVELS as int, vaddr.start, vaddr.end)
                &&& vaddr.end + ps(g.1) <= u64::MAX + 1
                &&& old(fm).can_alloc((3 * ((vaddr.end - vaddr.start) / PAGE_SIZE as int) + 3) as nat)
            },
        ensures
            final(fm).wf(),
            final(mem).wf(final(fm)),
            self.wf(final(mem)),
            !(M::range_start() <= vaddr.start && vaddr.end <= M::range_end()) || vaddr.start >= vaddr.end
                ==> r == Err::<Vec<Range<Vaddr>>, PageTableError>(PageTableError::InvalidVaddrRange(vaddr.start, vaddr.end)),
            M::range_start() <= vaddr.start && vaddr.end <= M::range_end() && vaddr.start < vaddr.end && !(vaddr.start
                % BASE_PAGE_SIZE == 0 && vaddr.end % BASE_PAGE_SIZE == 0)
                ==> r == Err::<Vec<Range<Vaddr>>, PageTableError>(PageTableError::UnalignedVaddr),
            range_ok::<M>(*vaddr) <==> r is Ok,
            r is Err ==> *final(mem) == *old(mem) && *final(fm) == *old(fm),
            r is Ok ==> forall|v: Vaddr| vaddr.start <= v < vaddr.end
                ==> reprotected(op, translate(self.lookup_spec(old(mem), v), v), #[trigger] translate(self.lookup_spec(final(mem), v), v)),
            r is Ok ==> forall|i: int| 0 <= i < r->Ok_0@.len() ==> {
                &&& vaddr.start <= (#[trigger] r->Ok_0@[i]).start < r->Ok_0@[i].end <= vaddr.end
                &&& i + 1 < r->Ok_0@.len() ==> r->Ok_0@[i].end <= r->Ok_0@[i + 1].start
            },
            r is Ok ==> forall|v: Vaddr| vaddr.start <= v < vaddr.end
                ==> (translate(self.lookup_spec(old(mem), v), v) is Some <==> #[trigger] in_ranges(r->Ok_0@, v)),
    {
        let mut cursor = match self.cursor_mut(mem, fm, vaddr) {
            Ok(c) => c,
            Err(e) => {
                return Err(e);
            },
        };
        let ghost c0 = cursor.0;
        let ghost m0 = *mem;
        let ghost fm0 = *fm;
        let mut flushed: Vec<Range<Vaddr>> = Vec::new();
        proof {
            assert forall|v: Vaddr| vaddr.start <= v < vaddr.end
                implies #[trigger] c0.in_guard_range(v) && self.lookup_spec(&m0, v) == c0.view(&m0, v) by {
                assert(cursor.0.in_guard_range(v));
            }
            lemma_page_size_values();
            assert(pages_left(vaddr.start as int, vaddr.end as int) == (vaddr.end - vaddr.start) / 4096);
        }
        loop
            invariant_except_break
                cursor.0.va < vaddr.end,
                vaddr.start <= cursor.0.va <= vaddr.end,
                forall|u: Vaddr| vaddr.start <= u < cursor.0.va
                    ==> reprotected(op, translate(c0.view(&m0, u), u), #[trigger] translate(c0.view(mem, u), u)),
                forall|u: Vaddr| cursor.0.va <= u < vaddr.end
                    ==> #[trigger] translate(c0.view(mem, u), u) == translate(c0.view(&m0, u), u),
                forall|i: int| 0 <= i < flushed@.len() ==> {
                    &&& vaddr.start <= (#[trigger] flushed@[i]).start < flushed@[i].end <= cursor.0.va
                    &&& i + 1 < flushed@.len() ==> flushed@[i].end <= flushed@[i + 1].start
                },
                fm.can_alloc((3 * pages_left(cursor.0.va as int, vaddr.end as int) + 3) as nat),
                forall|u: Vaddr| vaddr.start <= u < cursor.0.va
                    ==> (translate(c0.view(&m0, u), u) is Some <==> #[trigger] in_ranges(flushed@, u)),
            invariant
                cursor.0.wf(mem),
                cursor.0.same_frame(&c0),
                c0.barrier_va == *vaddr,
                fm.wf(),
                mem.wf(fm),
                fm.nr_frames() == fm0.nr_frames(),
                m0 == *old(mem),
                fm0 == *old(fm),
                self.wf(&m0),
                range_ok::<M>(*vaddr),
                vaddr.end + ps(c0.guard_level as int) <= u64::MAX + 1,
                (c0.guard_node().raw, c0.guard_level as int) == guard_of(&m0, self.root.raw, NR_LEVELS as int, vaddr.start, vaddr.end),
                forall|v: Vaddr| vaddr.start <= v < vaddr.end ==> #[trigger] c0.in_guard_range(v) && self.lookup_spec(&m0, v) == c0.view(&m0, v),
                forall|p: PageProperty| #[trigger] op.requires((p,)),
                m0.nodes_kept(mem),
                nodes_above_kept(&m0, mem, c0.guard_level as int),
            ensures
                cursor.0.wf(mem),
                fm.wf(),
                mem.wf(fm),
                m0.nodes_kept(mem),
                nodes_above_kept(&m0, mem, c0.guard_level as int),
                forall|u: Vaddr| vaddr.start <= u < vaddr.end
                    ==> reprotected(op, translate(c0.view(&m0, u), u), #[trigger] translate(c0.view(mem, u), u)),
                forall|i: int| 0 <= i < flushed@.len() ==> {
                    &&& vaddr.start <= (#[trigger] flushed@[i]).start < flushed@[i].end <= vaddr.end
                    &&& i + 1 < flushed@.len() ==> flushed@[i].end <= flushed@[i + 1].start
                },
                forall|u: Vaddr| vaddr.start <= u < vaddr.end
                    ==> (translate(c0.view(&m0, u), u) is Some <==> #[trigger] in_ranges(flushed@, u)),
            decreases vaddr.end - cursor.0.va,
        {
            let len = vaddr.end - cursor.virt_addr();
            let ghost va0 = cursor.0.va;
            let ghost m1 = *mem;
            let ghost fl0 = flushed@;
            let ghost cc = cursor.0;
            proof {
                lemma_page_size_values();
                assert(len % 4096 == 0) by (nonlinear_arith)
                    requires va0 % 4096 == 0, vaddr.end % 4096 == 0, len == vaddr.end - va0;
                vstd::arithmetic::div_mod::lemma_fundamental_div_mod((vaddr.end - va0) as int, 4096);
                assert(pages_left(va0 as int, vaddr.end as int) >= 1);
                cursor::lemma_can_alloc_fewer(fm, (3 * pages_left(va0 as int, vaddr.end as int) + 3) as nat, 3);
            }
            match cursor.protect_next(mem, fm, len, op) {
                Some(range) => {
                    proof {
                        let leaf = cursor.0.view(mem, range.start);
                        assert(cursor.0.guards@[cursor.0.guard_level - 1] is Some);
                        cursor::lemma_lookup_not_node(mem, fm, cursor.0.guard_node().raw, cursor.0.guard_level as int, range.start);
                        assert(ps(leaf.1) >= 4096) by {
                            cursor::lemma_page_size_mono(1, leaf.1);
                        }
                        assert(range.end % 4096 == 0);
                        vstd::arithmetic::div_mod::lemma_fundamental_div_mod((vaddr.end - range.end) as int, 4096);
                        vstd::arithmetic::div_mod::lemma_fundamental_div_mod((vaddr.end - va0) as int, 4096);
                        assert(3 * pages_left(range.end as int, vaddr.end as int) + 3 <= 3 * pages_left(va0 as int, vaddr.end as int));
                        assert(fm.can_alloc((3 * pages_left(va0 as int, vaddr.end as int)) as nat));
                        cursor::lemma_can_alloc_fewer(fm, (3 * pages_left(va0 as int, vaddr.end as int)) as nat, (3 * pages_left(range.end as int, vaddr.end as int) + 3) as nat);
                        m0.lemma_nodes_kept_trans(&m1, mem);
                        assert forall|j: int| 0 <= j < m0.nodes@.len() && #[trigger] m0.nodes@[j] is Some && (m0.nodes@[j]->Some_0).meta.level > c0.guard_level
                            implies mem.nodes@[j] == m0.nodes@[j] by {
                            assert(m1.nodes@[j] == m0.nodes@[j]);
                        }
                        assert forall|u: Vaddr| vaddr.start <= u < cursor.0.va
                            implies reprotected(op, translate(c0.view(&m0, u), u), #[trigger] translate(c0.view(mem, u), u)) by {
                            assert(c0.in_guard_range(u));
                            assert(cc.in_guard_range(u));
                            assert(cursor.0.view(mem, u) == c0.view(mem, u));
                            assert(cc.view(&m1, u) == c0.view(&m1, u));
                            if u < va0 {
                                assert(translate(cursor.0.view(mem, u), u) == translate(cc.view(&m1, u), u));
                                assert(reprotected(op, translate(c0.view(&m0, u), u), translate(c0.view(&m1, u), u)));
                            } else if u < range.start {
                                assert(translate(cursor.0.view(mem, u), u) == translate(cc.view(&m1, u), u));
                                assert(translate(cc.view(&m1, u), u) is None);
                                assert(translate(c0.view(&m1, u), u) == translate(c0.view(&m0, u), u));
                            } else {
                                assert(translate(cc.view(&m1, u), u) is Some);
                                assert(translate(c0.view(&m1, u), u) == translate(c0.view(&m0, u), u));
                            }
                        }
                        assert forall|u: Vaddr| cursor.0.va <= u < vaddr.end
                            implies #[trigger] translate(c0.view(mem, u), u) == translate(c0.view(&m0, u), u) by {
                            assert(c0.in_guard_range(u));
                            assert(cc.in_guard_range(u));
                            assert(cursor.0.view(mem, u) == c0.view(mem, u));
                            assert(cc.view(&m1, u) == c0.view(&m1, u));
                            assert(translate(cursor.0.view(mem, u), u) == translate(cc.view(&m1, u), u));
                            assert(translate(c0.view(&m1, u), u) == translate(c0.view(&m0, u), u));
                        }
                    }
                    flushed.push(range);
                    proof {
                        assert forall|i: int| 0 <= i < flushed@.len() implies {
                            &&& vaddr.start <= (#[trigger] flushed@[i]).start < flushed@[i].end <= cursor.0.va
                            &&& i + 1 < flushed@.len() ==> flushed@[i].end <= flushed@[i + 1].start
                        } by {
                            if i < fl0.len() {
                                assert(flushed@[i] == fl0[i]);
                                if i + 1 < fl0.len() {
                                    assert(flushed@[i + 1] == fl0[i + 1]);
                                }
                            }
                        }
                        assert forall|u: Vaddr| vaddr.start <= u < cursor.0.va
                            implies (translate(c0.view(&m0, u), u) is Some <==> #[trigger] in_ranges(flushed@, u)) by {
                            let n = fl0.len() as int;
                            assert(flushed@[n] == range);
                            if u < va0 {
                                assert(translate(c0.view(&m0, u), u) is Some <==> in_ranges(fl0, u));
                                if in_ranges(fl0, u) {
                                    let i = choose|i: int| 0 <= i < fl0.len() && (#[trigger] fl0[i]).start <= u < fl0[i].end;
                                    assert(flushed@[i] == fl0[i]);
                                }
                                if in_ranges(flushed@, u) {
                                    let i = choose|i: int| 0 <= i < flushed@.len() && (#[trigger] flushed@[i]).start <= u < flushed@[i].end;
                                    if i < n {
                                        assert(flushed@[i] == fl0[i]);
                                    }
                                }
                            } else {
                                assert(c0.in_guard_range(u));
                                assert(cc.in_guard_range(u));
                                assert(cc.view(&m1, u) == c0.view(&m1, u));
                                assert(translate(c0.view(&m1, u), u) == translate(c0.view(&m0, u), u));
                                if in_ranges(flushed@, u) {
                                    let i = choose|i: int| 0 <= i < flushed@.len() && (#[trigger] flushed@[i]).start <= u < flushed@[i].end;
                                    if i < n {
                                        assert(flushed@[i] == fl0[i]);
                                        assert(fl0[i].end <= va0);
                                    }
                                }
                                if u < range.start {
                                    assert(translate(cc.view(&m1, u), u) is None);
                                } else {
                                    assert(translate(cc.view(&m1, u), u) is Some);
                                }
                            }
                        }
                    }
                    if cursor.virt_addr() >= vaddr.end {
                        break;
                    }
                },
                None => {
                    proof {
                        m0.lemma_nodes_kept_trans(&m1, mem);
                        assert forall|j: int| 0 <= j < m0.nodes@.len() && #[trigger] m0.nodes@[j] is Some && (m0.nodes@[j]->Some_0).meta.level > c0.guard_level
                            implies mem.nodes@[j] == m0.nodes@[j] by {
                            assert(m1.nodes@[j] == m0.nodes@[j]);
                        }
                        assert forall|u: Vaddr| vaddr.start <= u < vaddr.end
                            implies reprotected(op, translate(c0.view(&m0, u), u), #[trigger] translate(c0.view(mem, u), u)) by {
                            assert(c0.in_guard_range(u));
                            assert(cc.in_guard_range(u));
                            assert(cursor.0.view(mem, u) == c0.view(mem, u));
                            assert(cc.view(&m1, u) == c0.view(&m1, u));
                            assert(translate(cursor.0.view(mem, u), u) == translate(cc.view(&m1, u), u));
                            if u < va0 {
                                assert(reprotected(op, translate(c0.view(&m0, u), u), translate(c0.view(&m1, u), u)));
                            } else {
                                assert(translate(cc.view(&m1, u), u) is None);
                                assert(cc.view(&m1, u) == c0.view(&m1, u));
                                assert(translate(c0.view(&m1, u), u) == translate(c0.view(&m0, u), u));
                            }
                        }
                        assert forall|u: Vaddr| vaddr.start <= u < vaddr.end
                            implies (translate(c0.view(&m0, u), u) is Some <==> #[trigger] in_ranges(flushed@, u)) by {
                            if u >= va0 {
                                assert(c0.in_guard_range(u));
                                assert(cc.in_guard_range(u));
                                assert(translate(cc.view(&m1, u), u) is None);
                                assert(cc.view(&m1, u) == c0.view(&m1, u));
                                assert(translate(c0.view(&m1, u), u) == translate(c0.view(&m0, u), u));
                                if in_ranges(flushed@, u) {
                                    let i = choose|i: int| 0 <= i < flushed@.len() && (#[trigger] flushed@[i]).start <= u < flushed@[i].end;
                                }
                            }
                        }
                    }
                    break;
                },
            }
        }
        proof {
            old(mem).lemma_kept_is_node(mem, self.root.raw, NR_LEVELS as int);
            assert(old(mem).nodes@[frame_of(self.root.raw)] is Some);
            M::lemma_range_in_one_prefix();
            cursor::lemma_page_size_step(NR_LEVELS as int);
            vstd::arithmetic::div_mod::lemma_div_is_ordered(M::range_start() as int, vaddr.start as int, ps(NR_LEVELS + 1));
            vstd::arithmetic::div_mod::lemma_div_is_ordered(vaddr.start as int, (vaddr.end - 1) as int, ps(NR_LEVELS + 1));
            vstd::arithmetic::div_mod::lemma_div_is_ordered((vaddr.end - 1) as int, (M::range_end() - 1) as int, ps(NR_LEVELS + 1));
            assert forall|v: Vaddr| vaddr.start <= v < vaddr.end
                implies reprotected(op, translate(self.lookup_spec(old(mem), v), v), #[trigger] translate(self.lookup_spec(mem, v), v)) by {
                lemma_guard_lookup(old(mem), mem, old(fm), self.root.raw, NR_LEVELS as int, vaddr.start, vaddr.end, v);
                assert(c0.in_guard_range(v));
                assert(reprotected(op, translate(c0.view(&m0, v), v), translate(c0.view(mem, v), v)));
            }
            assert forall|v: Vaddr| vaddr.start <= v < vaddr.end
                implies (translate(self.lookup_spec(old(mem), v), v) is Some <==> #[trigger] in_ranges(flushed@, v)) by {
                assert(c0.in_guard_range(v));
                assert(self.lookup_spec(&m0, v) == c0.view(&m0, v));
                assert(translate(c0.view(&m0, v), v) is Some <==> in_ranges(flushed@, v));
            }
        }
        Ok(flushed)
    }
}

} // verus!
