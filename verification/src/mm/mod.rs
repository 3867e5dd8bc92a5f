//! Virtual memory (VM): address types, paging constants and address arithmetic.

use vstd::prelude::*;
use vstd::arithmetic::power2::{pow2, lemma2_to64, lemma_pow2_strictly_increases};

pub mod frame;
pub mod io;
pub mod page_prop;
pub mod page_table;

verus! {

use crate::mm::page_table::{page_walk, PageTableEntryTrait};
use crate::mm::page_table::node::PageTableMem;

/// Virtual addresses.
pub type Vaddr = u64;

/// Physical addresses.
pub type Paddr = u64;

/// The level of a page table node or a frame.
pub type PagingLevel = u8;

/// The smallest page size, which is also the page size at level 1.
pub const BASE_PAGE_SIZE: u64 = 4096;

/// The number of levels of the page table (4-level paging).
pub const NR_LEVELS: PagingLevel = 4;

/// The highest level at which a PTE can directly translate an address.
pub const HIGHEST_TRANSLATION_LEVEL: PagingLevel = 2;

/// The size of one page table entry in bytes.
pub const PTE_SIZE: u64 = 8;

/// The number of bits of a virtual address that the paging hardware translates.
pub const ADDRESS_WIDTH: usize = 48;

/// The page size.
pub const PAGE_SIZE: u64 = 4096;

/// The maximum virtual address of user space (non inclusive).
///
/// The top page below the 47-bit boundary is not regarded as usable.
pub const MAX_USERSPACE_VADDR: Vaddr = 0x0000_7fff_ffff_f000;

/// The start of the kernel address space (high canonical addresses).
pub const KERNEL_VADDR_RANGE_START: Vaddr = 0xffff_8000_0000_0000;

/// The end (exclusive) of the kernel address space.
pub const KERNEL_VADDR_RANGE_END: Vaddr = 0xffff_ffff_ffff_0000;

/// The page size at a given level, as a mathematical value.
///
/// Each level multiplies the size covered by one entry by the number of
/// entries in a node (512).
pub open spec fn page_size_spec(level: int) -> nat
    decreases level,
{
    if level <= 1 {
        BASE_PAGE_SIZE as nat
    } else {
        512 * page_size_spec(level - 1)
    }
}

/// The page size at a given level.
///
/// Levels up to 6 have a page size that fits in a `usize`; the shift of
/// level 7 moves every bit out and yields zero.
pub fn page_size(level: PagingLevel) -> (r: u64)
    requires
        1 <= level <= 7,
    ensures
        level <= 6 ==> r == page_size_spec(level as int),
        level == 7 ==> r == 0,
{
    let bits = u64_ilog2(nr_subpage_per_huge());
    proof {
        lemma_page_size_values();
        lemma_log2_512(bits);
    }
    let shift: u64 = (bits as u64) * (level as u64 - 1);
    let r = BASE_PAGE_SIZE << shift;
    proof {
        assert(4096u64 << 0usize == 0x1000) by (bit_vector);
        assert(4096u64 << 9usize == 0x20_0000) by (bit_vector);
        assert(4096u64 << 18usize == 0x4000_0000) by (bit_vector);
        assert(4096u64 << 27usize == 0x80_0000_0000) by (bit_vector);
        assert(4096u64 << 36usize == 0x1_0000_0000_0000) by (bit_vector);
        assert(4096u64 << 45usize == 0x200_0000_0000_0000) by (bit_vector);
        assert(4096u64 << 54usize == 0) by (bit_vector);
    }
    r
}

/// The base-2 logarithm of `x`, rounded down: the exponent of its highest
/// set bit, found from the number of leading zero bits.
pub(crate) fn u64_ilog2(x: u64) -> (r: u32)
    requires
        x > 0,
    ensures
        pow2(r as nat) <= x < pow2(r as nat + 1),
{
    let z = x.leading_zeros();
    proof {
        lemma_leading_zeros_log(x);
    }
    63 - z
}

/// A nonzero `x` with `z` leading zero bits lies in `[2^(63-z), 2^(64-z))`.
proof fn lemma_leading_zeros_log(x: u64)
    requires
        x > 0,
    ensures
        0 <= vstd::std_specs::bits::u64_leading_zeros(x) <= 63,
        pow2((63 - vstd::std_specs::bits::u64_leading_zeros(x)) as nat) <= x,
        x < pow2((64 - vstd::std_specs::bits::u64_leading_zeros(x)) as nat),
    decreases x,
{
    reveal(vstd::std_specs::bits::u64_leading_zeros);
    lemma2_to64();
    if x == 1 {
        assert(vstd::std_specs::bits::u64_leading_zeros(0) == 64);
        assert(vstd::std_specs::bits::u64_leading_zeros(1) == 63);
    } else {
        lemma_leading_zeros_log(x / 2);
        let z = vstd::std_specs::bits::u64_leading_zeros(x / 2);
        assert(vstd::std_specs::bits::u64_leading_zeros(x) == z - 1);
        vstd::arithmetic::power2::lemma_pow2_unfold((64 - z) as nat);
        vstd::arithmetic::power2::lemma_pow2_unfold((65 - z) as nat);
    }
}

/// The logarithm of the number of entries in a node is 9.
pub proof fn lemma_log2_512(r: u32)
    requires
        pow2(r as nat) <= 512 < pow2(r as nat + 1),
    ensures
        r == 9,
{
    lemma2_to64();
    if r < 9 {
        lemma_pow2_strictly_increases((r + 1) as nat, 9);
        if r + 1 == 9 {
        }
    } else if r > 9 {
        lemma_pow2_strictly_increases(9, r as nat);
    }
}

/// The concrete page sizes of the levels that fit in a `usize`.
pub proof fn lemma_page_size_values()
    ensures
        page_size_spec(1) == 0x1000,
        page_size_spec(2) == 0x20_0000,
        page_size_spec(3) == 0x4000_0000,
        page_size_spec(4) == 0x80_0000_0000,
        page_size_spec(5) == 0x1_0000_0000_0000,
        page_size_spec(6) == 0x200_0000_0000_0000,
{
    reveal_with_fuel(page_size_spec, 7);
}

/// The number of sub pages in a huge page.
pub fn nr_subpage_per_huge() -> (r: u64)
    ensures
        r == 512,
{
    BASE_PAGE_SIZE / PTE_SIZE
}

/// The number of base pages in a page of the given level.
pub fn nr_base_per_page(level: PagingLevel) -> (r: u64)
    requires
        1 <= level <= 7,
    ensures
        level <= 6 ==> r == page_size_spec(level as int) / (BASE_PAGE_SIZE as nat),
        level == 7 ==> r == 0,
{
    page_size(level) / BASE_PAGE_SIZE
}

/// Objects that have a physical address.
pub trait HasPaddr {
    /// Returns the physical address.
    fn paddr(&self) -> Paddr;
}

/// Checks if the given address is page-aligned.
pub fn is_page_aligned(p: u64) -> (r: bool)
    ensures
        r == (p % PAGE_SIZE == 0),
{
    let r = (p & (PAGE_SIZE - 1)) == 0;
    proof {
        assert((p & 4095u64 == 0) == (p % 4096 == 0)) by (bit_vector);
    }
    r
}

/// Rounds `x` down to a multiple of `align`.
pub fn align_down(x: u64, align: u64) -> (r: u64)
    requires
        align > 0,
    ensures
        r == x - x % align,
        r % align == 0,
        r <= x < r + align,
{
    proof {
        vstd::arithmetic::div_mod::lemma_mod_decreases(x as nat, align as nat);
    }
    let r = x - x % align;
    proof {
        vstd::arithmetic::div_mod::lemma_fundamental_div_mod(x as int, align as int);
        vstd::arithmetic::div_mod::lemma_mod_multiples_basic((x / align) as int, align as int);
        vstd::arithmetic::mul::lemma_mul_is_commutative((x / align) as int, align as int);
    }
    r
}

/// Rounds `x` up to a multiple of `align`.
///
/// Panics (so the caller must exclude) when the result does not fit.
pub fn align_up(x: u64, align: u64) -> (r: u64)
    requires
        align > 0,
        x + align - 1 <= u64::MAX,
    ensures
        r % align == 0,
        x <= r < x + align,
        r == (if x % align == 0 { x as int } else { x - x % align + align }),
{
    let y = x + (align - 1);
    let r = y - y % align;
    proof {
        vstd::arithmetic::div_mod::lemma_fundamental_div_mod(y as int, align as int);
        vstd::arithmetic::div_mod::lemma_mod_multiples_basic((y / align) as int, align as int);
        vstd::arithmetic::mul::lemma_mul_is_commutative((y / align) as int, align as int);
        vstd::arithmetic::div_mod::lemma_fundamental_div_mod(x as int, align as int);
        if x % align == 0 {
            assert(y % align == align - 1) by {
                vstd::arithmetic::div_mod::lemma_mod_multiples_vanish((x / align) as int, (align - 1) as int, align as int);
                vstd::arithmetic::div_mod::lemma_small_mod((align - 1) as nat, align as nat);
                vstd::arithmetic::mul::lemma_mul_is_commutative((x / align) as int, align as int);
            }
        } else {
            assert(y % align == x % align - 1) by {
                vstd::arithmetic::div_mod::lemma_mod_multiples_vanish((x / align + 1) as int, (x % align - 1) as int, align as int);
                vstd::arithmetic::div_mod::lemma_small_mod((x % align - 1) as nat, align as nat);
                vstd::arithmetic::mul::lemma_mul_is_distributive_add_other_way(align as int, (x / align) as int, 1);
                vstd::arithmetic::mul::lemma_mul_is_commutative((x / align + 1) as int, align as int);
                vstd::arithmetic::mul::lemma_mul_is_commutative((x / align) as int, align as int);
            }
        }
    }
    r
}

/// The base of the linear mapping of all physical memory in kernel space.
pub const LINEAR_MAPPING_BASE_VADDR: Vaddr = 0xffff_8000_0000_0000;

/// The end (exclusive) of the linear mapping, which is the base of the
/// `vmalloc` area.
pub const VMALLOC_BASE_VADDR: Vaddr = 0xffff_c000_0000_0000;

/// The base of the frame metadata region; also the end of the `vmalloc` area.
pub const FRAME_METADATA_BASE_VADDR: Vaddr = 0xffff_e000_0000_0000;

/// The end (exclusive) of the frame metadata region.
pub const FRAME_METADATA_CAP_VADDR: Vaddr = 0xffff_e100_0000_0000;

/// The lowest kernel virtual address that readers and writers may access.
pub const KERNEL_BASE_VADDR: Vaddr = 0xffff_8000_0000_0000;

/// The end (exclusive) of the kernel virtual addresses that readers and
/// writers may access.
pub const KERNEL_END_VADDR: Vaddr = 0xffff_ffff_ffff_0000;

/// Converts a physical address to the virtual address of its linear mapping.
pub fn paddr_to_vaddr(pa: Paddr) -> (r: Vaddr)
    requires
        pa < VMALLOC_BASE_VADDR - LINEAR_MAPPING_BASE_VADDR,
    ensures
        r == pa + LINEAR_MAPPING_BASE_VADDR,
{
    pa + LINEAR_MAPPING_BASE_VADDR
}

/// Translates an address of the linear mapping in constant time.
///
/// Returns `None` for addresses outside the linear mapping.
pub fn linear_v2p(va: Vaddr) -> (r: Option<Paddr>)
    ensures
        r == (if LINEAR_MAPPING_BASE_VADDR <= va < VMALLOC_BASE_VADDR {
            Some((va - LINEAR_MAPPING_BASE_VADDR) as Paddr)
        } else {
            None::<Paddr>
        }),
{
    if LINEAR_MAPPING_BASE_VADDR <= va && va < VMALLOC_BASE_VADDR {
        Some(va - LINEAR_MAPPING_BASE_VADDR)
    } else {
        None
    }
}

/// The physical address that the hardware walk of the page table rooted at
/// `root_paddr` gives for `va`, or `None` when `va` is not mapped there.
pub open spec fn walk_paddr<E: PageTableEntryTrait>(mem: &PageTableMem<E>, root_paddr: Paddr, va: Vaddr) -> Option<Paddr> {
    match mem.pte_walk(root_paddr, NR_LEVELS as int, va) {
        Some((pa, _)) => Some(pa),
        None => None,
    }
}

/// Whether `va` lies in the linear mapping of physical memory.
pub open spec fn in_linear_mapping(va: Vaddr) -> bool {
    LINEAR_MAPPING_BASE_VADDR <= va < VMALLOC_BASE_VADDR
}

/// What the kernel address space maps `va` to: the linear mapping in
/// constant time, else the walk of the kernel page table.
pub open spec fn kspace_translation<E: PageTableEntryTrait>(mem: &PageTableMem<E>, kernel_root: Paddr, va: Vaddr) -> Option<Paddr> {
    if in_linear_mapping(va) {
        Some((va - LINEAR_MAPPING_BASE_VADDR) as Paddr)
    } else {
        walk_paddr(mem, kernel_root, va)
    }
}

/// Translates `va` through the page table rooted at `root_paddr`.
fn page_table_v2p<E: PageTableEntryTrait>(mem: &PageTableMem<E>, root_paddr: Paddr, va: Vaddr) -> (r: Option<Paddr>)
    requires
        mem.walk_ok(root_paddr, NR_LEVELS as int, va),
    ensures
        r == walk_paddr(mem, root_paddr, va),
{
    match page_walk(mem, root_paddr, va) {
        Some((pa, _flags)) => Some(pa),
        None => None,
    }
}

/// Translates `va` with the page table whose root the CPU currently uses,
/// `current_root` (read from the paging register by the caller). Kernel and
/// user addresses may be given; an unmapped address gives `None`.
pub fn register_v2p<E: PageTableEntryTrait>(mem: &PageTableMem<E>, current_root: Paddr, va: Vaddr) -> (r: Option<Paddr>)
    requires
        mem.walk_ok(current_root, NR_LEVELS as int, va),
    ensures
        r == walk_paddr(mem, current_root, va),
{
    page_table_v2p(mem, current_root, va)
}

/// Translates a kernel address: the linear mapping first, in constant time,
/// then the page table shared by the kernel, rooted at `kernel_root`.
pub fn kspace_v2p<E: PageTableEntryTrait>(mem: &PageTableMem<E>, kernel_root: Paddr, va: Vaddr) -> (r: Option<Paddr>)
    requires
        !in_linear_mapping(va) ==> mem.walk_ok(kernel_root, NR_LEVELS as int, va),
    ensures
        r == kspace_translation(mem, kernel_root, va),
{
    if let Some(pa) = linear_v2p(va) {
        return Some(pa);
    }
    page_table_v2p(mem, kernel_root, va)
}

/// What the current address space maps `va` to: the kernel address space
/// while no user address space is activated, else the page table of the
/// activated one, rooted at `active_root`.
pub open spec fn current_translation<E: PageTableEntryTrait>(
    mem: &PageTableMem<E>,
    kernel_root: Paddr,
    active_root: Option<Paddr>,
    va: Vaddr,
) -> Option<Paddr> {
    match active_root {
        None => kspace_translation(mem, kernel_root, va),
        Some(root) => walk_paddr(mem, root, va),
    }
}

/// Translates `va` in the current address space: that of the activated
/// user address space, whose page table is rooted at `active_root`, or the
/// kernel's while none is activated.
pub fn current_v2p<E: PageTableEntryTrait>(
    mem: &PageTableMem<E>,
    kernel_root: Paddr,
    active_root: Option<Paddr>,
    va: Vaddr,
) -> (r: Option<Paddr>)
    requires
        active_root is None && !in_linear_mapping(va) ==> mem.walk_ok(kernel_root, NR_LEVELS as int, va),
        active_root is Some ==> mem.walk_ok(active_root->0, NR_LEVELS as int, va),
    ensures
        r == current_translation(mem, kernel_root, active_root, va),
{
    match active_root {
        None => kspace_v2p(mem, kernel_root, va),
        Some(root) => page_table_v2p(mem, root, va),
    }
}

/// What `va` translates to: kernel addresses (the upper half) through the
/// kernel address space, the others through the current address space.
pub open spec fn translation<E: PageTableEntryTrait>(
    mem: &PageTableMem<E>,
    kernel_root: Paddr,
    active_root: Option<Paddr>,
    va: Vaddr,
) -> Option<Paddr> {
    if va >= KERNEL_VADDR_RANGE_START {
        kspace_translation(mem, kernel_root, va)
    } else {
        current_translation(mem, kernel_root, active_root, va)
    }
}

/// Translates a virtual address to a physical address: an address of the
/// kernel half goes straight to the kernel address space, the others to the
/// current address space.
pub fn vaddr_to_paddr<E: PageTableEntryTrait>(
    mem: &PageTableMem<E>,
    kernel_root: Paddr,
    active_root: Option<Paddr>,
    va: Vaddr,
) -> (r: Option<Paddr>)
    requires
        (va >= KERNEL_VADDR_RANGE_START || active_root is None) && !in_linear_mapping(va)
            ==> mem.walk_ok(kernel_root, NR_LEVELS as int, va),
        va < KERNEL_VADDR_RANGE_START && active_root is Some
            ==> mem.walk_ok(active_root->0, NR_LEVELS as int, va),
    ensures
        r == translation(mem, kernel_root, active_root, va),
{
    if va >= KERNEL_VADDR_RANGE_START {
        kspace_v2p(mem, kernel_root, va)
    } else {
        current_v2p(mem, kernel_root, active_root, va)
    }
}

/// Whether pages mapped at `va` are tracked by frame metadata: everything
/// but the linear mapping and the `vmalloc` area.
pub fn should_map_as_tracked(va: Vaddr) -> (r: bool)
    ensures
        r == !(LINEAR_MAPPING_BASE_VADDR <= va < FRAME_METADATA_BASE_VADDR),
{
    !((LINEAR_MAPPING_BASE_VADDR <= va && va < VMALLOC_BASE_VADDR)
        || (VMALLOC_BASE_VADDR <= va && va < FRAME_METADATA_BASE_VADDR))
}

/// The linear mapping translates back: the virtual address that
/// `paddr_to_vaddr` gives for `pa` translates to `pa`, in the kernel
/// address space whatever its page table holds.
pub proof fn lemma_linear_round_trip<E: PageTableEntryTrait>(mem: &PageTableMem<E>, kernel_root: Paddr, pa: Paddr)
    requires
        pa < VMALLOC_BASE_VADDR - LINEAR_MAPPING_BASE_VADDR,
    ensures
        in_linear_mapping((pa + LINEAR_MAPPING_BASE_VADDR) as Vaddr),
        kspace_translation(mem, kernel_root, (pa + LINEAR_MAPPING_BASE_VADDR) as Vaddr) == Some(pa),
{
}

} // verus!
