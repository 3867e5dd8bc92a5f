//! Listing the entries of a page table, for printing page-table structures
//! at run time.

use vstd::prelude::*;

use super::node::{frame_of, PageTableMem};
use super::PageTableEntryTrait;
use crate::mm::{lemma_page_size_values, page_prop::PageProperty, page_size, page_size_spec, Paddr, PagingLevel, Vaddr, NR_LEVELS};

verus! {

/// One line of a page table listing: an entry of a node at `level`, its
/// index, the virtual address that it covers from, the physical address
/// and property that it holds, and how far the line is indented.
#[derive(Clone, Copy, Debug, PartialEq, Eq, Structural)]
pub struct DumpLine {
    pub indent: u64,
    pub level: PagingLevel,
    pub idx: u64,
    pub va: Vaddr,
    pub pa: Paddr,
    pub prop: PageProperty,
}

/// The virtual address that entry `idx` of a node at `level` covers from,
/// the node covering from `va_base`. The entries of the upper half of the
/// root are sign-extended to canonical addresses.
pub open spec fn child_va(level: int, va_base: int, idx: int) -> int {
    let v = va_base + idx * page_size_spec(level);
    if level == NR_LEVELS && idx >= 256 {
        v + 0xffff_0000_0000_0000
    } else {
        v
    }
}

/// The end of the range of entry `idx`, capped at the largest address.
pub open spec fn child_end(level: int, va_base: int, idx: int) -> int {
    let e = child_va(level, va_base, idx) + page_size_spec(level);
    if e > u64::MAX { u64::MAX as int } else { e }
}

/// Whether entry `idx` of the node at `level` covering from `va_base` is
/// listed for the range `[start, end)`: its range meets the range.
pub open spec fn listed(level: int, va_base: int, idx: int, start: int, end: int) -> bool {
    !(child_va(level, va_base, idx) >= end || child_end(level, va_base, idx) <= start)
}

/// The listing of entries `idx..512` of the node at `pa` of `level` (and,
/// below each entry that does not map a page, of the node it points to),
/// for the range `[start, end)`.
pub open spec fn dump_entries<E: PageTableEntryTrait>(
    mem: &PageTableMem<E>,
    pa: Paddr,
    level: int,
    va_base: int,
    start: int,
    end: int,
    indent: int,
    idx: int,
) -> Seq<DumpLine>
    decreases level, 512 - idx,
{
    if idx >= 512 || idx < 0 || level < 1 {
        Seq::empty()
    } else {
        let rest = dump_entries(mem, pa, level, va_base, start, end, indent, idx + 1);
        if !listed(level, va_base, idx, start, end) {
            rest
        } else {
            let pte = mem.pte(pa, idx);
            let cva = child_va(level, va_base, idx);
            let line = DumpLine {
                indent: indent as u64,
                level: level as PagingLevel,
                idx: idx as u64,
                va: cva as Vaddr,
                pa: pte.spec_paddr(),
                prop: pte.spec_prop(),
            };
            let sub = if level > 1 && !pte.spec_last(level as PagingLevel) {
                dump_entries(mem, pte.spec_paddr(), level - 1, cva, start, end, indent + 2, 0)
            } else {
                Seq::empty()
            };
            seq![line] + sub + rest
        }
    }
}

/// Every node that the listing reads lies in memory: entries `idx..512` of
/// the node at `pa`, and the nodes below the listed entries.
pub open spec fn dump_ok<E: PageTableEntryTrait>(
    mem: &PageTableMem<E>,
    pa: Paddr,
    level: int,
    va_base: int,
    start: int,
    end: int,
    idx: int,
) -> bool
    decreases level, 512 - idx,
{
    if idx >= 512 || idx < 0 || level < 1 {
        true
    } else {
        let pte = mem.pte(pa, idx);
        &&& frame_of(pa) < mem.ptes@.len()
        &&& mem.ptes@[frame_of(pa)]@.len() == 512
        &&& dump_ok(mem, pa, level, va_base, start, end, idx + 1)
        &&& (listed(level, va_base, idx, start, end) && level > 1 && !pte.spec_last(level as PagingLevel)) ==>
            dump_ok(mem, pte.spec_paddr(), level - 1, child_va(level, va_base, idx), start, end, 0)
    }
}

/// The address of entry `idx` of the root: below the upper half as is,
/// in the upper half sign-extended.
fn root_child_va(idx: u64) -> (r: Vaddr)
    requires
        idx < 512,
    ensures
        r == child_va(NR_LEVELS as int, 0, idx as int),
{
    proof { lemma_page_size_values(); }
    let v: u64 = idx * 0x80_0000_0000u64;
    let sign_bit: u64 = 1u64 << 47u64;
    if v & sign_bit != 0 {
        let top: u64 = 1u64 << 48u64;
        proof {
            assert(top == 0x1_0000_0000_0000u64) by (bit_vector)
                requires top == 1u64 << 48u64;
        }
        let low: u64 = top - 1;
        let mask: u64 = !low;
        let r = v | mask;
        proof {
            assert(mask == 0xffff_0000_0000_0000u64) by (bit_vector)
                requires mask == !low, low == 0xffff_ffff_ffffu64;
            assert(idx >= 256) by {
                assert(idx < 256 ==> v < 0x8000_0000_0000) by (nonlinear_arith)
                    requires v == idx * 0x80_0000_0000u64;
                assert(v < 0x8000_0000_0000u64 ==> v & (1u64 << 47u64) == 0) by (bit_vector);
            }
            assert(v < 0x1_0000_0000_0000) by (nonlinear_arith)
                requires v == idx * 0x80_0000_0000u64, idx < 512;
            assert(v < 0x1_0000_0000_0000u64 ==> v | 0xffff_0000_0000_0000u64 == v + 0xffff_0000_0000_0000u64) by (bit_vector);
        }
        r
    } else {
        proof {
            assert(idx < 256) by {
                assert(idx >= 256 ==> 0x8000_0000_0000 <= v < 0x1_0000_0000_0000) by (nonlinear_arith)
                    requires v == idx * 0x80_0000_0000u64, idx < 512;
                assert(0x8000_0000_0000u64 <= v < 0x1_0000_0000_0000u64 ==> v & (1u64 << 47u64) != 0) by (bit_vector);
            }
        }
        v
    }
}

/// Appends the listing of the node at `pt_pa` of `level`, which covers from
/// `va_base`, for the range `[start, end)`.
fn dump_node<E: PageTableEntryTrait>(
    mem: &PageTableMem<E>,
    pt_pa: Paddr,
    level: PagingLevel,
    va_base: Vaddr,
    start: Vaddr,
    end: Vaddr,
    indent: u64,
    out: &mut Vec<DumpLine>,
)
    requires
        1 <= level <= NR_LEVELS,
        level == NR_LEVELS ==> va_base == 0,
        level < NR_LEVELS ==> va_base + 512 * page_size_spec(level as int) <= u64::MAX + 1,
        indent + 2 * level <= 2 * NR_LEVELS,
        dump_ok(mem, pt_pa, level as int, va_base as int, start as int, end as int, 0),
    ensures
        final(out)@ == old(out)@ + dump_entries(mem, pt_pa, level as int, va_base as int, start as int, end as int, indent as int, 0),
    decreases level,
{
    proof { lemma_page_size_values(); }
    let stride = page_size(level);
    assert(stride >= 4096) by {
        assert(level == 1 || level == 2 || level == 3 || level == 4);
    }
    let mut idx: u64 = 0;
    let ghost out0 = old(out)@;
    while idx < 512
        invariant
            idx <= 512,
            1 <= level <= NR_LEVELS,
            stride == page_size_spec(level as int),
            stride >= 4096,
            level == NR_LEVELS ==> va_base == 0,
            level < NR_LEVELS ==> va_base + 512 * page_size_spec(level as int) <= u64::MAX + 1,
            indent + 2 * level <= 2 * NR_LEVELS,
            dump_ok(mem, pt_pa, level as int, va_base as int, start as int, end as int, idx as int),
            out0 + dump_entries(mem, pt_pa, level as int, va_base as int, start as int, end as int, indent as int, 0)
                == out@ + dump_entries(mem, pt_pa, level as int, va_base as int, start as int, end as int, indent as int, idx as int),
        decreases 512 - idx,
    {
        proof { lemma_page_size_values(); }
        let ghost before = out@;
        let ghost rest = dump_entries(mem, pt_pa, level as int, va_base as int, start as int, end as int, indent as int, idx + 1);
        let child_va_base = if level == NR_LEVELS {
            root_child_va(idx)
        } else {
            proof {
                assert(va_base + idx * stride + stride <= u64::MAX + 1) by (nonlinear_arith)
                    requires va_base + 512 * stride <= u64::MAX + 1, idx < 512, stride > 0;
            }
            va_base + idx * stride
        };
        proof {
            assert(child_va_base == child_va(level as int, va_base as int, idx as int));
            assert(child_va_base + stride <= u64::MAX + 1) by {
                if level == NR_LEVELS {
                    assert(idx * 0x80_0000_0000 + 0x80_0000_0000 <= 0x1_0000_0000_0000) by (nonlinear_arith)
                        requires idx < 512;
                    assert(idx < 256 ==> idx * 0x80_0000_0000 + 0x80_0000_0000 <= 0x8000_0000_0000) by (nonlinear_arith);
                }
                if level < NR_LEVELS {
                    assert(va_base + idx * stride + stride <= u64::MAX + 1) by (nonlinear_arith)
                        requires va_base + 512 * stride <= u64::MAX + 1, idx < 512, stride > 0;
                }
            }
        }
        let child_end = match child_va_base.checked_add(stride) {
            Some(e) => e,
            None => u64::MAX,
        };
        if child_va_base >= end || child_end <= start {
            proof {
                assert(!listed(level as int, va_base as int, idx as int, start as int, end as int));
            }
        } else {
            let pte = mem.read_pte_at(pt_pa, idx as usize);
            out.push(DumpLine {
                indent,
                level,
                idx,
                va: child_va_base,
                pa: pte.paddr(),
                prop: pte.prop(),
            });
            let ghost after_line = out@;
            if level > 1 && !pte.is_last(level) {
                proof {
                    assert(child_va_base + 512 * page_size_spec(level - 1) <= u64::MAX + 1) by {
                        assert(page_size_spec(level as int) == 512 * page_size_spec(level - 1));
                    }
                }
                dump_node(mem, pte.paddr(), level - 1, child_va_base, start, end, indent + 2, out);
            }
            proof {
                let line = DumpLine {
                    indent: indent,
                    level: level,
                    idx: idx,
                    va: child_va_base,
                    pa: pte.spec_paddr(),
                    prop: pte.spec_prop(),
                };
                let sub = if level > 1 && !pte.spec_last(level) {
                    dump_entries(mem, pte.spec_paddr(), level - 1, child_va_base as int, start as int, end as int, indent + 2, 0)
                } else {
                    Seq::empty()
                };
                assert(after_line == before.push(line));
                assert(out@ == before + seq![line] + sub);
                assert(dump_entries(mem, pt_pa, level as int, va_base as int, start as int, end as int, indent as int, idx as int)
                    == seq![line] + sub + rest);
                assert(before + (seq![line] + sub + rest) =~= out@ + rest);
            }
        }
        idx = idx + 1;
    }
}

/// Lists the whole page table rooted at `root_paddr`, or the part of it
/// that covers `[start, end)`: one line per entry whose range meets the
/// range, each followed by the listing of the node that it points to.
///
/// The walk reads the nodes below every entry that does not map a page,
/// absent entries included.
pub fn dump_page_table<E: PageTableEntryTrait>(mem: &PageTableMem<E>, root_paddr: Paddr, start: Vaddr, end: Vaddr) -> (r: Vec<DumpLine>)
    requires
        dump_ok(mem, root_paddr, NR_LEVELS as int, 0, start as int, end as int, 0),
    ensures
        r@ == dump_entries(mem, root_paddr, NR_LEVELS as int, 0, start as int, end as int, 0, 0),
{
    let mut out: Vec<DumpLine> = Vec::new();
    dump_node(mem, root_paddr, NR_LEVELS, 0, start, end, 0, &mut out);
    proof {
        assert(out@ =~= Seq::<DumpLine>::empty() + dump_entries(mem, root_paddr, NR_LEVELS as int, 0, start as int, end as int, 0, 0));
    }
    out
}

/// Checks that every node that the listing of the node at `pt_pa` of
/// `level`, covering from `va_base`, reads for `[start, end)` lies in
/// memory.
fn node_readable<E: PageTableEntryTrait>(
    mem: &PageTableMem<E>,
    pt_pa: Paddr,
    level: PagingLevel,
    va_base: Vaddr,
    start: Vaddr,
    end: Vaddr,
) -> (r: bool)
    requires
        1 <= level <= NR_LEVELS,
        level == NR_LEVELS ==> va_base == 0,
        level < NR_LEVELS ==> va_base + 512 * page_size_spec(level as int) <= u64::MAX + 1,
    ensures
        r == dump_ok(mem, pt_pa, level as int, va_base as int, start as int, end as int, 0),
    decreases level,
{
    proof { lemma_page_size_values(); }
    let f = pt_pa / 4096;
    if f >= mem.ptes.len() as u64 || mem.ptes[f as usize].len() != 512 {
        return false;
    }
    let stride = page_size(level);
    assert(stride >= 4096) by {
        assert(level == 1 || level == 2 || level == 3 || level == 4);
    }
    let mut idx: u64 = 512;
    let mut ok = true;
    // Checks the entries from the last one down, so that `ok` is the
    // readability of entries `idx..512`.
    while idx > 0
        invariant
            idx <= 512,
            1 <= level <= NR_LEVELS,
            stride == page_size_spec(level as int),
            stride >= 4096,
            level == NR_LEVELS ==> va_base == 0,
            level < NR_LEVELS ==> va_base + 512 * page_size_spec(level as int) <= u64::MAX + 1,
            frame_of(pt_pa) < mem.ptes@.len(),
            mem.ptes@[frame_of(pt_pa)]@.len() == 512,
            ok == dump_ok(mem, pt_pa, level as int, va_base as int, start as int, end as int, idx as int),
        decreases idx,
    {
        proof { lemma_page_size_values(); }
        let i = idx - 1;
        let child_va_base = if level == NR_LEVELS {
            root_child_va(i)
        } else {
            proof {
                assert(va_base + i * stride + stride <= u64::MAX + 1) by (nonlinear_arith)
                    requires va_base + 512 * stride <= u64::MAX + 1, i < 512, stride > 0;
            }
            va_base + i * stride
        };
        proof {
            assert(child_va_base + stride <= u64::MAX + 1) by {
                if level == NR_LEVELS {
                    assert(i * 0x80_0000_0000 + 0x80_0000_0000 <= 0x1_0000_0000_0000) by (nonlinear_arith)
                        requires i < 512;
                    assert(i < 256 ==> i * 0x80_0000_0000 + 0x80_0000_0000 <= 0x8000_0000_0000) by (nonlinear_arith);
                }
                if level < NR_LEVELS {
                    assert(va_base + i * stride + stride <= u64::MAX + 1) by (nonlinear_arith)
                        requires va_base + 512 * stride <= u64::MAX + 1, i < 512, stride > 0;
                }
            }
        }
        let child_end = match child_va_base.checked_add(stride) {
            Some(e) => e,
            None => u64::MAX,
        };
        let in_range = !(child_va_base >= end || child_end <= start);
        let pte = mem.read_pte_at(pt_pa, i as usize);
        let mut entry_ok = true;
        if in_range && level > 1 && !pte.is_last(level) {
            proof {
                assert(child_va_base + 512 * page_size_spec(level - 1) <= u64::MAX + 1) by {
                    assert(page_size_spec(level as int) == 512 * page_size_spec(level - 1));
                }
            }
            entry_ok = node_readable(mem, pte.paddr(), level - 1, child_va_base, start, end);
        }
        ok = ok && entry_ok;
        idx = i;
    }
    ok
}

/// Whether the listing of the page table rooted at `root_paddr` for
/// `[start, end)` reads only nodes that lie in memory.
pub fn dump_readable<E: PageTableEntryTrait>(mem: &PageTableMem<E>, root_paddr: Paddr, start: Vaddr, end: Vaddr) -> (r: bool)
    ensures
        r == dump_ok(mem, root_paddr, NR_LEVELS as int, 0, start as int, end as int, 0),
{
    node_readable(mem, root_paddr, NR_LEVELS, 0, start, end)
}

} // verus!
