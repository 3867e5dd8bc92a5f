//! The boot page table: mapping management before the frame metadata and
//! the kernel page table exist.
//!
//! It works on PTEs in physical frames directly, starting from the page
//! table that the firmware or boot loader set up. Frames it allocates for
//! new nodes come from the frame allocator and are marked in the PTE that
//! points to them with `PageFlags::AVAIL1`.

use vstd::prelude::*;
use core::marker::PhantomData;

use super::{cursor::lemma_same_prefix_above, page_offset, pte_index, pte_index_spec, PageTableEntryTrait};
use crate::mm::{
    frame::allocator::{next_power_of_two_spec, CountingFrameAllocator, PAGE_SIZE_BYTES},
    lemma_page_size_values, page_prop::{PageFlags, PageProperty}, page_size, page_size_spec, Paddr, PagingLevel, Vaddr,
    BASE_PAGE_SIZE, NR_LEVELS, PAGE_SIZE,
};
use super::node::{frame_of, PageTableMem};

verus! {

/// The number of a physical frame: its address divided by the page size.
pub type FrameNumber = usize;

/// The simple boot page table, for mapping management in the boot phase.
pub struct BootPageTable<E: PageTableEntryTrait> {
    /// The frame number of the root node.
    pub root_pt: FrameNumber,
    pub _pretend_to_use: PhantomData<E>,
}

/// The PTE at index `i` of frame number `f`.
pub open spec fn fpte<E: PageTableEntryTrait>(mem: &PageTableMem<E>, f: int, i: int) -> E {
    mem.ptes@[f]@[i]
}

/// Whether frame number `f` is free in the allocator.
pub open spec fn is_free_frame(alloc: CountingFrameAllocator, f: int) -> bool {
    alloc.free_frames().count(f as usize) > 0
}

/// The frame holds 512 entries and is not free.
pub open spec fn frame_ok<E: PageTableEntryTrait>(mem: &PageTableMem<E>, alloc: CountingFrameAllocator, f: int) -> bool {
    &&& 0 <= f < mem.ptes@.len()
    &&& mem.ptes@[f]@.len() == 512
    &&& !is_free_frame(alloc, f)
}

/// Whether mapping a base page at `va` from frame `f` of `level` goes well:
/// the walk meets no huge page, ends in an absent base entry, and reads
/// frames that are not free and not in `seen`.
pub open spec fn map_walk_ok<E: PageTableEntryTrait>(
    mem: &PageTableMem<E>,
    alloc: CountingFrameAllocator,
    f: int,
    level: int,
    va: Vaddr,
    seen: Seq<int>,
) -> bool
    decreases level,
{
    let pte = fpte(mem, f, pte_index_spec(va, level) as int);
    &&& frame_ok(mem, alloc, f)
    &&& !seen.contains(f)
    &&& if level > 1 {
        pte.spec_present() ==> {
            &&& !pte.spec_last(level as PagingLevel)
            &&& pte.spec_paddr() % PAGE_SIZE == 0
            &&& map_walk_ok(mem, alloc, (pte.spec_paddr() / PAGE_SIZE) as int, level - 1, va, seen.push(f))
        }
    } else {
        !pte.spec_present()
    }
}

/// The number of frames that mapping a base page at `va` allocates: one per
/// missing level.
pub open spec fn map_walk_missing<E: PageTableEntryTrait>(mem: &PageTableMem<E>, f: int, level: int, va: Vaddr) -> nat
    decreases level,
{
    let pte = fpte(mem, f, pte_index_spec(va, level) as int);
    if level <= 1 {
        0
    } else if !pte.spec_present() {
        (level - 1) as nat
    } else {
        map_walk_missing(mem, (pte.spec_paddr() / PAGE_SIZE) as int, level - 1, va)
    }
}

/// The hardware walk from the root at `root_pa` translates `va` to `pa`
/// with `prop`.
pub open spec fn walk_maps<E: PageTableEntryTrait>(mem: &PageTableMem<E>, root_pa: Paddr, va: Vaddr, pa: Paddr, prop: PageProperty) -> bool {
    mem.pte_walk(root_pa, NR_LEVELS as int, va) == Some((pa, prop))
}

/// Every address of the base page at `from` walks from the root at
/// `root_pa` to its offset in the physical page at `pa` with `prop`.
pub open spec fn page_mapped<E: PageTableEntryTrait>(mem: &PageTableMem<E>, root_pa: Paddr, from: Vaddr, pa: int, prop: PageProperty) -> bool {
    forall|va: Vaddr| #![trigger mem.walk_ok(root_pa, NR_LEVELS as int, va)] va as int / 4096 == from as int / 4096
        ==> mem.walk_ok(root_pa, NR_LEVELS as int, va) && walk_maps(mem, root_pa, va, (pa + va % PAGE_SIZE) as Paddr, prop)
}

/// Whether the allocator can hand out `n` single frames, all of them frames
/// of `mem`.
pub open spec fn alloc_ok<E: PageTableEntryTrait>(mem: &PageTableMem<E>, alloc: CountingFrameAllocator, n: nat) -> bool {
    &&& alloc.free_frames().len() >= n
    &&& alloc.frame_counters().0 + n <= usize::MAX
    &&& alloc.allocated_spec() + n * PAGE_SIZE_BYTES <= usize::MAX
    &&& forall|f: usize| #[trigger] alloc.free_frames().count(f) > 0 ==> f < mem.ptes@.len() && alloc.free_frames().count(f) == 1
    &&& mem.ptes@.len() * PAGE_SIZE <= u64::MAX
}

/// The `j`-th link of the path from the root down to `pt`: the entry of
/// the `j`-th frame points to the next frame.
pub open spec fn link_ok<E: PageTableEntryTrait>(mem: &PageTableMem<E>, path: Seq<int>, pt: int, va: Vaddr, j: int) -> bool {
    let pte = fpte(mem, path[j], pte_index_spec(va, NR_LEVELS - j) as int);
    let nx = if j + 1 < path.len() { path[j + 1] } else { pt };
    &&& 0 <= path[j] < mem.ptes@.len()
    &&& mem.ptes@[path[j]]@.len() == 512
    &&& pte.spec_present()
    &&& !pte.spec_last((NR_LEVELS - j) as PagingLevel)
    &&& pte.spec_paddr() == nx * PAGE_SIZE
}

/// The frames of the path from the root down to `pt`: each entry on the
/// path points to the next frame.
pub open spec fn path_links<E: PageTableEntryTrait>(mem: &PageTableMem<E>, path: Seq<int>, pt: int, va: Vaddr) -> bool {
    forall|j: int| 0 <= j < path.len() ==> #[trigger] link_ok(mem, path, pt, va, j)
}

/// Addresses of the same base page are walked through the same entries, so
/// the walk from the root reaches `pt`.
proof fn lemma_path_walk<E: PageTableEntryTrait>(mem: &PageTableMem<E>, path: Seq<int>, pt: int, va: Vaddr, va2: Vaddr, j: int)
    requires
        path_links(mem, path, pt, va),
        0 <= j <= path.len(),
        path.len() < NR_LEVELS,
        va2 as int / 4096 == va as int / 4096,
        mem.ptes@.len() * PAGE_SIZE <= u64::MAX,
        0 <= pt < mem.ptes@.len(),
    ensures
        ({
            let f = if j < path.len() { path[j] } else { pt };
            let level = NR_LEVELS - j;
            let lv = NR_LEVELS - path.len();
            &&& mem.pte_walk((f * PAGE_SIZE) as Paddr, level, va2) == mem.pte_walk((pt * PAGE_SIZE) as Paddr, lv, va2)
            &&& mem.walk_ok((pt * PAGE_SIZE) as Paddr, lv, va2) ==> mem.walk_ok((f * PAGE_SIZE) as Paddr, level, va2)
        }),
    decreases path.len() - j,
{
    if j < path.len() {
        lemma_path_walk(mem, path, pt, va, va2, j + 1);
        assert(link_ok(mem, path, pt, va, j));
        let f = path[j];
        let level = NR_LEVELS - j;
        lemma_page_size_values();
        lemma_same_prefix_above(va2, va, 1, level);
        assert(pte_index_spec(va2, level) == pte_index_spec(va, level)) by {
            if level == 1 {
            }
        }
        let pte = fpte(mem, f, pte_index_spec(va, level) as int);
        assert(0 <= f < mem.ptes@.len());
        let n = mem.ptes@.len();
        assert(f * 4096 <= u64::MAX) by (nonlinear_arith)
            requires 0 <= f < n, n * 4096 <= u64::MAX;
        assert((f * 4096) / 4096 == f) by (nonlinear_arith)
            requires 0 <= f;
        assert((f * PAGE_SIZE) as Paddr / PAGE_SIZE == f);
        assert(mem.pte((f * PAGE_SIZE) as Paddr, pte_index_spec(va2, level) as int) == pte);
    }
}

/// The frame that the walk of `va` from the node at frame `f` of `level`
/// reads at level `l`, if it gets there: it goes down through the entries
/// that point to nodes.
pub open spec fn walk_frame<E: PageTableEntryTrait>(mem: &PageTableMem<E>, f: int, level: int, va: Vaddr, l: int) -> Option<int>
    decreases level,
{
    if l == level {
        Some(f)
    } else if l > level || level <= 1 {
        None
    } else {
        let pte = fpte(mem, f, pte_index_spec(va, level) as int);
        if pte.spec_present() && !pte.spec_last(level as PagingLevel) {
            walk_frame(mem, (pte.spec_paddr() / PAGE_SIZE) as int, level - 1, va, l)
        } else {
            None
        }
    }
}

/// Walks of `a` and `b` take the same entries at every level above `l`.
pub open spec fn same_walk_above(a: Vaddr, b: Vaddr, l: int) -> bool {
    forall|k: int| l < k <= NR_LEVELS ==> #[trigger] pte_index_spec(a, k) == pte_index_spec(b, k)
}

/// The walk of `va` from the root at frame `root` reads the frame `q` at
/// level `l`.
pub open spec fn root_walk<E: PageTableEntryTrait>(mem: &PageTableMem<E>, root: int, va: Vaddr, l: int) -> Option<int> {
    walk_frame(mem, root, NR_LEVELS as int, va, l)
}

/// The boot page table with its root at frame `root` is well formed with
/// `alloc`: every frame that a walk reads holds 512 entries and is not free,
/// the entries it goes down through point to page-aligned addresses, and a
/// frame is read at one level only, by walks that took the same entries
/// above it.
pub open spec fn boot_wf<E: PageTableEntryTrait>(mem: &PageTableMem<E>, alloc: CountingFrameAllocator, root: int) -> bool {
    &&& mem.ptes@.len() * PAGE_SIZE <= u64::MAX
    &&& forall|va: Vaddr, l: int| 1 <= l <= NR_LEVELS && (#[trigger] root_walk(mem, root, va, l)) is Some ==> {
        let q = root_walk(mem, root, va, l)->Some_0;
        &&& frame_ok(mem, alloc, q)
        &&& 2 <= l && is_link(mem, q, l, pte_index_spec(va, l) as int)
            ==> fpte(mem, q, pte_index_spec(va, l) as int).spec_paddr() % PAGE_SIZE == 0
    }
    &&& forall|a: Vaddr, b: Vaddr, la: int, lb: int|
        1 <= la <= NR_LEVELS && 1 <= lb <= NR_LEVELS && (#[trigger] root_walk(mem, root, a, la)) is Some
            && #[trigger] root_walk(mem, root, b, lb) == root_walk(mem, root, a, la)
        ==> la == lb && same_walk_above(a, b, la)
}

/// The walk from a node reads the entry at the address's index in its
/// frame, so only the frame of the node's address matters.
proof fn lemma_walk_same_frame<E: PageTableEntryTrait>(mem: &PageTableMem<E>, pa: Paddr, pb: Paddr, level: int, va: Vaddr)
    requires
        frame_of(pa) == frame_of(pb),
    ensures
        mem.pte_walk(pa, level, va) == mem.pte_walk(pb, level, va),
{
    assert(mem.pte(pa, pte_index_spec(va, level) as int) == mem.pte(pb, pte_index_spec(va, level) as int));
}

/// A walk that reads the same entries in `m1` as in `m0` at the levels
/// above `stop` reaches the same frames at those levels and at `stop`; if
/// it reads the same entries at every level, it finds the same.
proof fn lemma_walk_agree<E: PageTableEntryTrait>(m0: &PageTableMem<E>, m1: &PageTableMem<E>, pa: Paddr, level: int, va: Vaddr, stop: int)
    requires
        0 <= stop,
        forall|l: int| stop < l <= level && (#[trigger] walk_frame(m0, frame_of(pa), level, va, l)) is Some
            ==> fpte(m1, walk_frame(m0, frame_of(pa), level, va, l)->Some_0, pte_index_spec(va, l) as int)
                == fpte(m0, walk_frame(m0, frame_of(pa), level, va, l)->Some_0, pte_index_spec(va, l) as int),
    ensures
        forall|l: int| stop <= l ==> #[trigger] walk_frame(m1, frame_of(pa), level, va, l) == walk_frame(m0, frame_of(pa), level, va, l),
        stop == 0 && level >= 1 ==> m1.pte_walk(pa, level, va) == m0.pte_walk(pa, level, va),
    decreases level,
{
    let f = frame_of(pa);
    if stop < level && level >= 1 {
        assert(walk_frame(m0, f, level, va, level) == Some(f));
        let pte = fpte(m0, f, pte_index_spec(va, level) as int);
        assert(fpte(m1, f, pte_index_spec(va, level) as int) == pte);
        if level > 1 && pte.spec_present() && !pte.spec_last(level as PagingLevel) {
            let child = pte.spec_paddr();
            assert(frame_of(child) == (pte.spec_paddr() / PAGE_SIZE) as int);
            assert forall|l: int| stop < l <= level - 1 && (#[trigger] walk_frame(m0, frame_of(child), level - 1, va, l)) is Some
                implies fpte(m1, walk_frame(m0, frame_of(child), level - 1, va, l)->Some_0, pte_index_spec(va, l) as int)
                    == fpte(m0, walk_frame(m0, frame_of(child), level - 1, va, l)->Some_0, pte_index_spec(va, l) as int) by {
                assert(walk_frame(m0, f, level, va, l) == walk_frame(m0, frame_of(child), level - 1, va, l));
            }
            lemma_walk_agree(m0, m1, child, level - 1, va, stop);
            assert forall|l: int| stop <= l implies #[trigger] walk_frame(m1, f, level, va, l) == walk_frame(m0, f, level, va, l) by {
                if l < level {
                    assert(walk_frame(m1, frame_of(child), level - 1, va, l) == walk_frame(m0, frame_of(child), level - 1, va, l));
                }
            }
        }
        assert(m1.pte(pa, pte_index_spec(va, level) as int) == m0.pte(pa, pte_index_spec(va, level) as int));
    }
}

/// A walk that reaches frame `q` at level `l` finds there what the walk
/// from the node at `q` finds.
proof fn lemma_walk_descend<E: PageTableEntryTrait>(mem: &PageTableMem<E>, pa: Paddr, level: int, va: Vaddr, l: int, pb: Paddr)
    requires
        1 <= l <= level,
        walk_frame(mem, frame_of(pa), level, va, l) == Some(frame_of(pb)),
    ensures
        mem.pte_walk(pa, level, va) == mem.pte_walk(pb, l, va),
    decreases level,
{
    if l == level {
        lemma_walk_same_frame(mem, pa, pb, level, va);
    } else {
        let pte = fpte(mem, frame_of(pa), pte_index_spec(va, level) as int);
        assert(mem.pte(pa, pte_index_spec(va, level) as int) == pte);
        lemma_walk_descend(mem, pte.spec_paddr(), level - 1, va, l, pb);
    }
}

/// The frame a walk reads one level further down is the target of the
/// entry it reads, if that points to a node.
proof fn lemma_walk_frame_next<E: PageTableEntryTrait>(mem: &PageTableMem<E>, f: int, level: int, va: Vaddr, l: int)
    requires
        2 <= l <= level,
        walk_frame(mem, f, level, va, l) is Some,
    ensures
        ({
            let q = walk_frame(mem, f, level, va, l)->Some_0;
            let i = pte_index_spec(va, l) as int;
            walk_frame(mem, f, level, va, l - 1) == if is_link(mem, q, l, i) { Some(link_target(mem, q, i)) } else { None }
        }),
    decreases level,
{
    let pte = fpte(mem, f, pte_index_spec(va, level) as int);
    let c = (pte.spec_paddr() / PAGE_SIZE) as int;
    if l < level {
        lemma_walk_frame_next(mem, c, level - 1, va, l);
    } else {
        assert(walk_frame(mem, c, level - 1, va, level - 1) == Some(c));
    }
}

/// A walk that reaches level `l2` went through every level above it.
proof fn lemma_walk_frame_above<E: PageTableEntryTrait>(mem: &PageTableMem<E>, f: int, level: int, va: Vaddr, l2: int, l: int)
    requires
        l2 <= l <= level,
        walk_frame(mem, f, level, va, l2) is Some,
    ensures
        walk_frame(mem, f, level, va, l) is Some,
    decreases level,
{
    if l < level {
        let pte = fpte(mem, f, pte_index_spec(va, level) as int);
        lemma_walk_frame_above(mem, (pte.spec_paddr() / PAGE_SIZE) as int, level - 1, va, l2, l);
    }
}

/// What pointing the entry of frame `pt`, read at level `lv` by the walk of
/// `from`, to a new frame `g` holds for the walk of one address `va`.
spec fn relinked<E: PageTableEntryTrait>(
    m0: &PageTableMem<E>,
    m1: &PageTableMem<E>,
    alloc0: CountingFrameAllocator,
    alloc1: CountingFrameAllocator,
    root: int,
    from: Vaddr,
    lv: int,
    pt: int,
    g: int,
) -> bool {
    let i = pte_index_spec(from, lv) as int;
    &&& boot_wf(m0, alloc0, root)
    &&& 2 <= lv <= NR_LEVELS
    &&& root_walk(m0, root, from, lv) == Some(pt)
    &&& !is_link(m0, pt, lv, i)
    &&& 0 <= g < m0.ptes@.len()
    &&& is_free_frame(alloc0, g)
    &&& !is_free_frame(alloc1, g)
    &&& forall|f: int| 0 <= f < m0.ptes@.len() && f != g ==> #[trigger] is_free_frame(alloc1, f) == is_free_frame(alloc0, f)
    &&& m1.ptes@.len() == m0.ptes@.len()
    &&& forall|j: int| 0 <= j < m0.ptes@.len() && j != pt && j != g ==> #[trigger] m1.ptes@[j] == m0.ptes@[j]
    &&& m1.ptes@[pt]@ == m0.ptes@[pt]@.update(i, fpte(m1, pt, i))
    &&& is_link(m1, pt, lv, i)
    &&& link_target(m1, pt, i) == g
    &&& fpte(m1, pt, i).spec_paddr() % PAGE_SIZE == 0
    &&& m1.ptes@[g]@.len() == 512
    &&& forall|k: int| 0 <= k < 512 ==> !#[trigger] is_link(m1, g, lv - 1, k)
    &&& forall|va: Vaddr| root_walk(m0, root, va, lv) == Some(pt) && pte_index_spec(va, lv) == i
        ==> #[trigger] m1.pte_walk(fpte(m1, pt, i).spec_paddr(), lv - 1, va) == m0.pte_walk((pt * PAGE_SIZE) as Paddr, lv, va)
}

/// One address under `relinked`: its walk finds the same as before, and
/// reaches the same frames, but for the new frame `g` one level below `pt`
/// where it goes through the changed entry.
proof fn lemma_relink_va<E: PageTableEntryTrait>(
    m0: &PageTableMem<E>,
    m1: &PageTableMem<E>,
    alloc0: CountingFrameAllocator,
    alloc1: CountingFrameAllocator,
    root: int,
    from: Vaddr,
    lv: int,
    pt: int,
    g: int,
    va: Vaddr,
)
    requires
        relinked(m0, m1, alloc0, alloc1, root, from, lv, pt, g),
        0 <= root < m0.ptes@.len(),
    ensures
        ({
            let through = root_walk(m0, root, va, lv) == Some(pt) && pte_index_spec(va, lv) == pte_index_spec(from, lv);
            &&& m1.pte_walk((root * PAGE_SIZE) as Paddr, NR_LEVELS as int, va) == m0.pte_walk((root * PAGE_SIZE) as Paddr, NR_LEVELS as int, va)
            &&& forall|l: int| 1 <= l <= NR_LEVELS ==> #[trigger] root_walk(m1, root, va, l) == if through && l == lv - 1 {
                Some(g)
            } else if through && l < lv - 1 {
                None
            } else {
                root_walk(m0, root, va, l)
            }
        }),
{
    let i = pte_index_spec(from, lv) as int;
    let root_pa = (root * PAGE_SIZE) as Paddr;
    let n = m0.ptes@.len();
    lemma_page_size_values();
    assert(root * 4096 <= u64::MAX) by (nonlinear_arith)
        requires 0 <= root < n, n * 4096 <= u64::MAX;
    assert(frame_of(root_pa) == root) by (nonlinear_arith)
        requires root_pa == root * 4096, 0 <= root;
    let through = root_walk(m0, root, va, lv) == Some(pt) && pte_index_spec(va, lv) == i;
    assert(frame_ok(m0, alloc0, pt));
    // Frames read above the changed entry are neither `pt` nor `g`.
    assert forall|l: int| 1 <= l <= NR_LEVELS && (#[trigger] walk_frame(m0, frame_of(root_pa), NR_LEVELS as int, va, l)) is Some
        && !(l == lv && through)
        implies fpte(m1, walk_frame(m0, frame_of(root_pa), NR_LEVELS as int, va, l)->Some_0, pte_index_spec(va, l) as int)
            == fpte(m0, walk_frame(m0, frame_of(root_pa), NR_LEVELS as int, va, l)->Some_0, pte_index_spec(va, l) as int) by {
        let q = root_walk(m0, root, va, l)->Some_0;
        assert(root_walk(m0, root, va, l) is Some);
        assert(frame_ok(m0, alloc0, q));
        assert(q != g);
        if q == pt {
            assert(root_walk(m0, root, from, lv) == root_walk(m0, root, va, l));
            assert(l == lv);
            assert(pte_index_spec(va, l) != i);
            assert(pte_index_spec(va, l) < 512) by {
                vstd::arithmetic::div_mod::lemma_mod_bound((va as nat / page_size_spec(l)) as int, 512);
            }
        }
    }
    if !through {
        lemma_walk_agree(m0, m1, root_pa, NR_LEVELS as int, va, 0);
    } else {
        lemma_walk_agree(m0, m1, root_pa, NR_LEVELS as int, va, lv);
        assert(root_walk(m1, root, va, lv) == Some(pt));
        lemma_walk_frame_next(m1, root, NR_LEVELS as int, va, lv);
        assert(root_walk(m1, root, va, lv - 1) == Some(g));
        if lv - 1 >= 2 {
            lemma_walk_frame_next(m1, root, NR_LEVELS as int, va, lv - 1);
            assert(!is_link(m1, g, lv - 1, pte_index_spec(va, lv - 1) as int)) by {
                vstd::arithmetic::div_mod::lemma_mod_bound((va as nat / page_size_spec(lv - 1)) as int, 512);
            }
            assert forall|l: int| 1 <= l < lv - 1 implies #[trigger] root_walk(m1, root, va, l) is None by {
                if root_walk(m1, root, va, l) is Some {
                    lemma_walk_frame_above(m1, root, NR_LEVELS as int, va, l, lv - 2);
                }
            }
        }
        // The walk goes through the new link to `g`.
        let ptpa = (pt * PAGE_SIZE) as Paddr;
        assert(pt * 4096 <= u64::MAX) by (nonlinear_arith)
            requires 0 <= pt < n, n * 4096 <= u64::MAX;
        assert(frame_of(ptpa) == pt) by (nonlinear_arith)
            requires ptpa == pt * 4096, 0 <= pt;
        lemma_walk_descend(m1, root_pa, NR_LEVELS as int, va, lv, ptpa);
        lemma_walk_descend(m0, root_pa, NR_LEVELS as int, va, lv, ptpa);
        assert(m1.pte(ptpa, i) == fpte(m1, pt, i));
        assert(m1.pte_walk(ptpa, lv, va) == m1.pte_walk(fpte(m1, pt, i).spec_paddr(), lv - 1, va));
    }
}

/// Pointing an entry that held no node to a new frame keeps the boot page
/// table well formed and every translation as it was.
proof fn lemma_relink<E: PageTableEntryTrait>(
    m0: &PageTableMem<E>,
    m1: &PageTableMem<E>,
    alloc0: CountingFrameAllocator,
    alloc1: CountingFrameAllocator,
    root: int,
    from: Vaddr,
    lv: int,
    pt: int,
    g: int,
)
    requires
        relinked(m0, m1, alloc0, alloc1, root, from, lv, pt, g),
        0 <= root < m0.ptes@.len(),
    ensures
        boot_wf(m1, alloc1, root),
        forall|va: Vaddr| #[trigger] m1.pte_walk((root * PAGE_SIZE) as Paddr, NR_LEVELS as int, va)
            == m0.pte_walk((root * PAGE_SIZE) as Paddr, NR_LEVELS as int, va),
        root_walk(m1, root, from, lv - 1) == Some(g),
        forall|va: Vaddr, l: int| lv <= l <= NR_LEVELS ==> #[trigger] root_walk(m1, root, va, l) == root_walk(m0, root, va, l),
{
    let i = pte_index_spec(from, lv) as int;
    assert forall|va: Vaddr| #[trigger] m1.pte_walk((root * PAGE_SIZE) as Paddr, NR_LEVELS as int, va)
        == m0.pte_walk((root * PAGE_SIZE) as Paddr, NR_LEVELS as int, va) by {
        lemma_relink_va(m0, m1, alloc0, alloc1, root, from, lv, pt, g, va);
    }
    lemma_relink_va(m0, m1, alloc0, alloc1, root, from, lv, pt, g, from);
    assert(root_walk(m1, root, from, lv - 1) == Some(g));
    assert forall|va: Vaddr, l: int| lv <= l <= NR_LEVELS implies #[trigger] root_walk(m1, root, va, l) == root_walk(m0, root, va, l) by {
        lemma_relink_va(m0, m1, alloc0, alloc1, root, from, lv, pt, g, va);
    }
    assert forall|va: Vaddr, l: int| 1 <= l <= NR_LEVELS && (#[trigger] root_walk(m1, root, va, l)) is Some implies {
        let q = root_walk(m1, root, va, l)->Some_0;
        &&& frame_ok(m1, alloc1, q)
        &&& 2 <= l && is_link(m1, q, l, pte_index_spec(va, l) as int)
            ==> fpte(m1, q, pte_index_spec(va, l) as int).spec_paddr() % PAGE_SIZE == 0
    } by {
        lemma_relink_va(m0, m1, alloc0, alloc1, root, from, lv, pt, g, va);
        let through = root_walk(m0, root, va, lv) == Some(pt) && pte_index_spec(va, lv) == i;
        let q = root_walk(m1, root, va, l)->Some_0;
        assert(pte_index_spec(va, l) < 512) by {
            lemma_page_size_values();
            vstd::arithmetic::div_mod::lemma_mod_bound((va as nat / page_size_spec(l)) as int, 512);
        }
        if through && l == lv - 1 {
            assert(q == g);
        } else {
            assert(root_walk(m0, root, va, l) == Some(q));
            assert(frame_ok(m0, alloc0, q));
            assert(q != g);
            if q == pt {
                assert(root_walk(m0, root, from, lv) == root_walk(m0, root, va, l));
                assert(l == lv);
                if pte_index_spec(va, l) != i {
                    assert(fpte(m1, q, pte_index_spec(va, l) as int) == fpte(m0, q, pte_index_spec(va, l) as int));
                }
            } else {
                assert(m1.ptes@[q] == m0.ptes@[q]);
            }
        }
    }
    assert forall|a: Vaddr, b: Vaddr, la: int, lb: int|
        1 <= la <= NR_LEVELS && 1 <= lb <= NR_LEVELS && (#[trigger] root_walk(m1, root, a, la)) is Some
            && #[trigger] root_walk(m1, root, b, lb) == root_walk(m1, root, a, la)
        implies la == lb && same_walk_above(a, b, la) by {
        lemma_relink_va(m0, m1, alloc0, alloc1, root, from, lv, pt, g, a);
        lemma_relink_va(m0, m1, alloc0, alloc1, root, from, lv, pt, g, b);
        let ta = root_walk(m0, root, a, lv) == Some(pt) && pte_index_spec(a, lv) == i;
        let tb = root_walk(m0, root, b, lv) == Some(pt) && pte_index_spec(b, lv) == i;
        let q = root_walk(m1, root, a, la)->Some_0;
        let ga = ta && la == lv - 1;
        let gb = tb && lb == lv - 1;
        if !ga {
            assert(root_walk(m0, root, a, la) == Some(q));
            assert(frame_ok(m0, alloc0, q));
        }
        if !gb {
            assert(root_walk(m0, root, b, lb) == Some(q));
            assert(frame_ok(m0, alloc0, q));
        }
        if ga && gb {
            assert(root_walk(m0, root, b, lv) == root_walk(m0, root, a, lv));
            assert(same_walk_above(a, b, lv));
            assert forall|k: int| lv - 1 < k <= NR_LEVELS implies #[trigger] pte_index_spec(a, k) == pte_index_spec(b, k) by {
                if k > lv {
                    assert(pte_index_spec(a, k) == pte_index_spec(b, k));
                }
            }
        } else if !ga && !gb {
            assert(root_walk(m0, root, b, lb) == root_walk(m0, root, a, la));
        }
    }
}

/// One address under a change of the base-level entry of `from`: it reaches
/// the same frames, and finds the same unless it takes the same entries as
/// `from`.
proof fn lemma_leaf_write_va<E: PageTableEntryTrait>(
    m0: &PageTableMem<E>,
    m1: &PageTableMem<E>,
    alloc: CountingFrameAllocator,
    root: int,
    from: Vaddr,
    pt: int,
    va: Vaddr,
)
    requires
        boot_wf(m0, alloc, root),
        0 <= root < m0.ptes@.len(),
        root_walk(m0, root, from, 1) == Some(pt),
        m1.ptes@.len() == m0.ptes@.len(),
        forall|j: int| 0 <= j < m0.ptes@.len() && j != pt ==> #[trigger] m1.ptes@[j] == m0.ptes@[j],
        m1.ptes@[pt]@ == m0.ptes@[pt]@.update(pte_index_spec(from, 1) as int, fpte(m1, pt, pte_index_spec(from, 1) as int)),
    ensures
        forall|l: int| 1 <= l ==> #[trigger] root_walk(m1, root, va, l) == root_walk(m0, root, va, l),
        !same_walk_above(va, from, 0) ==> m1.pte_walk((root * PAGE_SIZE) as Paddr, NR_LEVELS as int, va)
            == m0.pte_walk((root * PAGE_SIZE) as Paddr, NR_LEVELS as int, va),
{
    let root_pa = (root * PAGE_SIZE) as Paddr;
    let n = m0.ptes@.len();
    lemma_page_size_values();
    assert(root * 4096 <= u64::MAX) by (nonlinear_arith)
        requires 0 <= root < n, n * 4096 <= u64::MAX;
    assert(frame_of(root_pa) == root) by (nonlinear_arith)
        requires root_pa == root * 4096, 0 <= root;
    assert(frame_ok(m0, alloc, pt));
    assert forall|l: int| 1 < l <= NR_LEVELS && (#[trigger] walk_frame(m0, frame_of(root_pa), NR_LEVELS as int, va, l)) is Some
        implies fpte(m1, walk_frame(m0, frame_of(root_pa), NR_LEVELS as int, va, l)->Some_0, pte_index_spec(va, l) as int)
            == fpte(m0, walk_frame(m0, frame_of(root_pa), NR_LEVELS as int, va, l)->Some_0, pte_index_spec(va, l) as int) by {
        let q = root_walk(m0, root, va, l)->Some_0;
        assert(root_walk(m0, root, va, l) is Some);
        if q == pt {
            assert(root_walk(m0, root, from, 1) == root_walk(m0, root, va, l));
        }
    }
    lemma_walk_agree(m0, m1, root_pa, NR_LEVELS as int, va, 1);
    if !same_walk_above(va, from, 0) {
        assert forall|l: int| 0 < l <= NR_LEVELS && (#[trigger] walk_frame(m0, frame_of(root_pa), NR_LEVELS as int, va, l)) is Some
            implies fpte(m1, walk_frame(m0, frame_of(root_pa), NR_LEVELS as int, va, l)->Some_0, pte_index_spec(va, l) as int)
                == fpte(m0, walk_frame(m0, frame_of(root_pa), NR_LEVELS as int, va, l)->Some_0, pte_index_spec(va, l) as int) by {
            let q = root_walk(m0, root, va, l)->Some_0;
            assert(root_walk(m0, root, va, l) is Some);
            if q == pt {
                assert(root_walk(m0, root, from, 1) == root_walk(m0, root, va, l));
                assert(l == 1);
                assert(same_walk_above(va, from, 1));
                if pte_index_spec(va, 1) == pte_index_spec(from, 1) {
                    assert forall|k: int| 0 < k <= NR_LEVELS implies #[trigger] pte_index_spec(va, k) == pte_index_spec(from, k) by {
                        if k > 1 {
                            assert(pte_index_spec(va, k) == pte_index_spec(from, k));
                        }
                    }
                }
                assert(pte_index_spec(va, 1) < 512) by {
                    vstd::arithmetic::div_mod::lemma_mod_bound((va as nat / page_size_spec(1)) as int, 512);
                }
            }
        }
        lemma_walk_agree(m0, m1, root_pa, NR_LEVELS as int, va, 0);
    }
}

/// Changing an entry of the frame that the walk of `from` reads at the base
/// level keeps the boot page table well formed, and changes no walk but
/// those of the addresses that take the same entries as `from`.
proof fn lemma_leaf_write<E: PageTableEntryTrait>(
    m0: &PageTableMem<E>,
    m1: &PageTableMem<E>,
    alloc: CountingFrameAllocator,
    root: int,
    from: Vaddr,
    pt: int,
)
    requires
        boot_wf(m0, alloc, root),
        0 <= root < m0.ptes@.len(),
        root_walk(m0, root, from, 1) == Some(pt),
        m1.ptes@.len() == m0.ptes@.len(),
        forall|j: int| 0 <= j < m0.ptes@.len() && j != pt ==> #[trigger] m1.ptes@[j] == m0.ptes@[j],
        m1.ptes@[pt]@ == m0.ptes@[pt]@.update(pte_index_spec(from, 1) as int, fpte(m1, pt, pte_index_spec(from, 1) as int)),
    ensures
        boot_wf(m1, alloc, root),
        forall|va: Vaddr| !same_walk_above(va, from, 0) ==> #[trigger] m1.pte_walk((root * PAGE_SIZE) as Paddr, NR_LEVELS as int, va)
            == m0.pte_walk((root * PAGE_SIZE) as Paddr, NR_LEVELS as int, va),
        forall|va: Vaddr, l: int| 1 <= l <= NR_LEVELS ==> #[trigger] root_walk(m1, root, va, l) == root_walk(m0, root, va, l),
{
    assert(frame_ok(m0, alloc, pt));
    assert forall|va: Vaddr| !same_walk_above(va, from, 0) implies #[trigger] m1.pte_walk((root * PAGE_SIZE) as Paddr, NR_LEVELS as int, va)
        == m0.pte_walk((root * PAGE_SIZE) as Paddr, NR_LEVELS as int, va) by {
        lemma_leaf_write_va(m0, m1, alloc, root, from, pt, va);
    }
    assert forall|va: Vaddr, l: int| 1 <= l <= NR_LEVELS implies #[trigger] root_walk(m1, root, va, l) == root_walk(m0, root, va, l) by {
        lemma_leaf_write_va(m0, m1, alloc, root, from, pt, va);
    }
    assert forall|va: Vaddr, l: int| 1 <= l <= NR_LEVELS && (#[trigger] root_walk(m1, root, va, l)) is Some implies {
        let q = root_walk(m1, root, va, l)->Some_0;
        &&& frame_ok(m1, alloc, q)
        &&& 2 <= l && is_link(m1, q, l, pte_index_spec(va, l) as int)
            ==> fpte(m1, q, pte_index_spec(va, l) as int).spec_paddr() % PAGE_SIZE == 0
    } by {
        lemma_leaf_write_va(m0, m1, alloc, root, from, pt, va);
        let q = root_walk(m1, root, va, l)->Some_0;
        assert(root_walk(m0, root, va, l) == Some(q));
        if q == pt {
            assert(root_walk(m0, root, from, 1) == root_walk(m0, root, va, l));
            assert(l == 1);
        } else {
            assert(m1.ptes@[q] == m0.ptes@[q]);
        }
    }
    assert forall|a: Vaddr, b: Vaddr, la: int, lb: int|
        1 <= la <= NR_LEVELS && 1 <= lb <= NR_LEVELS && (#[trigger] root_walk(m1, root, a, la)) is Some
            && #[trigger] root_walk(m1, root, b, lb) == root_walk(m1, root, a, la)
        implies la == lb && same_walk_above(a, b, la) by {
        lemma_leaf_write_va(m0, m1, alloc, root, from, pt, a);
        lemma_leaf_write_va(m0, m1, alloc, root, from, pt, b);
        assert(root_walk(m0, root, a, la) == root_walk(m1, root, a, la));
        assert(root_walk(m0, root, b, lb) == root_walk(m1, root, b, lb));
    }
}

/// A root frame of 512 absent entries that is not free makes a well formed
/// boot page table that maps nothing.
pub proof fn lemma_boot_wf_fresh<E: PageTableEntryTrait>(mem: &PageTableMem<E>, alloc: CountingFrameAllocator, root: int)
    requires
        mem.ptes@.len() * PAGE_SIZE <= u64::MAX,
        0 <= root < mem.ptes@.len(),
        mem.ptes@[root]@.len() == 512,
        forall|i: int| 0 <= i < 512 ==> !(#[trigger] fpte(mem, root, i)).spec_present(),
        !is_free_frame(alloc, root),
    ensures
        boot_wf(mem, alloc, root),
        forall|va: Vaddr| #[trigger] mem.pte_walk((root * PAGE_SIZE) as Paddr, NR_LEVELS as int, va) is None,
{
    lemma_page_size_values();
    let n = mem.ptes@.len();
    assert(root * 4096 <= u64::MAX) by (nonlinear_arith)
        requires 0 <= root < n, n * 4096 <= u64::MAX;
    assert forall|va: Vaddr, l: int| 1 <= l <= NR_LEVELS implies #[trigger] root_walk(mem, root, va, l)
        == if l == NR_LEVELS { Some(root) } else { None::<int> } by {
        assert(pte_index_spec(va, NR_LEVELS as int) < 512) by {
            vstd::arithmetic::div_mod::lemma_mod_bound((va as nat / page_size_spec(NR_LEVELS as int)) as int, 512);
        }
    }
    assert forall|va: Vaddr| #[trigger] mem.pte_walk((root * PAGE_SIZE) as Paddr, NR_LEVELS as int, va) is None by {
        let pa = (root * PAGE_SIZE) as Paddr;
        assert(frame_of(pa) == root) by (nonlinear_arith)
            requires pa == root * 4096, 0 <= root;
        assert(pte_index_spec(va, NR_LEVELS as int) < 512) by {
            vstd::arithmetic::div_mod::lemma_mod_bound((va as nat / page_size_spec(NR_LEVELS as int)) as int, 512);
        }
        assert(mem.pte(pa, pte_index_spec(va, NR_LEVELS as int) as int) == fpte(mem, root, pte_index_spec(va, NR_LEVELS as int) as int));
        assert(!mem.pte(pa, pte_index_spec(va, NR_LEVELS as int) as int).spec_present());
    }
    assert forall|va: Vaddr, l: int| 1 <= l <= NR_LEVELS && (#[trigger] root_walk(mem, root, va, l)) is Some implies {
        let q = root_walk(mem, root, va, l)->Some_0;
        &&& frame_ok(mem, alloc, q)
        &&& 2 <= l && is_link(mem, q, l, pte_index_spec(va, l) as int)
            ==> fpte(mem, q, pte_index_spec(va, l) as int).spec_paddr() % PAGE_SIZE == 0
    } by {
        assert(l == NR_LEVELS);
        assert(pte_index_spec(va, l) < 512) by {
            vstd::arithmetic::div_mod::lemma_mod_bound((va as nat / page_size_spec(l)) as int, 512);
        }
    }
    assert forall|a: Vaddr, b: Vaddr, la: int, lb: int|
        1 <= la <= NR_LEVELS && 1 <= lb <= NR_LEVELS && (#[trigger] root_walk(mem, root, a, la)) is Some
            && #[trigger] root_walk(mem, root, b, lb) == root_walk(mem, root, a, la)
        implies la == lb && same_walk_above(a, b, la) by {
        assert(la == NR_LEVELS);
        assert(lb == NR_LEVELS);
    }
}

/// In a well formed boot page table, the walk below the frame `f` that the
/// walk of `va` reads at `level`, where it finds nothing, goes well for
/// mapping a base page: `seen` holds the frames read above.
pub proof fn lemma_boot_map_walk_ok<E: PageTableEntryTrait>(
    mem: &PageTableMem<E>,
    alloc: CountingFrameAllocator,
    root: int,
    va: Vaddr,
    level: int,
    f: int,
    seen: Seq<int>,
)
    requires
        boot_wf(mem, alloc, root),
        1 <= level <= NR_LEVELS,
        root_walk(mem, root, va, level) == Some(f),
        seen.len() == NR_LEVELS - level,
        forall|j: int| 0 <= j < seen.len() ==> root_walk(mem, root, va, NR_LEVELS - j) == Some(#[trigger] seen[j]),
        mem.pte_walk((f * PAGE_SIZE) as Paddr, level, va) is None,
    ensures
        map_walk_ok(mem, alloc, f, level, va, seen),
    decreases level,
{
    lemma_page_size_values();
    let n = mem.ptes@.len();
    assert(frame_ok(mem, alloc, f));
    assert(f * 4096 <= u64::MAX) by (nonlinear_arith)
        requires 0 <= f < n, n * 4096 <= u64::MAX;
    let pa = (f * PAGE_SIZE) as Paddr;
    assert(frame_of(pa) == f) by (nonlinear_arith)
        requires pa == f * 4096, 0 <= f;
    let i = pte_index_spec(va, level) as int;
    let pte = fpte(mem, f, i);
    assert(mem.pte(pa, i) == pte);
    assert(!seen.contains(f)) by {
        if seen.contains(f) {
            let j = choose|j: int| 0 <= j < seen.len() && seen[j] == f;
            assert(root_walk(mem, root, va, NR_LEVELS - j) == Some(seen[j]));
            assert(root_walk(mem, root, va, NR_LEVELS - j) == root_walk(mem, root, va, level));
        }
    }
    if level > 1 && pte.spec_present() {
        assert(!pte.spec_last(level as PagingLevel));
        assert(is_link(mem, f, level, i));
        let c = (pte.spec_paddr() / PAGE_SIZE) as int;
        lemma_walk_frame_next(mem, root, NR_LEVELS as int, va, level);
        assert(root_walk(mem, root, va, level - 1) == Some(c));
        assert(frame_ok(mem, alloc, c));
        let cpa = (c * PAGE_SIZE) as Paddr;
        assert(c * 4096 <= u64::MAX) by (nonlinear_arith)
            requires 0 <= c < n, n * 4096 <= u64::MAX;
        assert(frame_of(cpa) == c) by (nonlinear_arith)
            requires cpa == c * 4096, 0 <= c;
        assert(frame_of(pte.spec_paddr()) == c);
        lemma_walk_same_frame(mem, pte.spec_paddr(), cpa, level - 1, va);
        let s2 = seen.push(f);
        assert forall|j: int| 0 <= j < s2.len() implies root_walk(mem, root, va, NR_LEVELS - j) == Some(#[trigger] s2[j]) by {
            if j < seen.len() {
                assert(root_walk(mem, root, va, NR_LEVELS - j) == Some(seen[j]));
            }
        }
        lemma_boot_map_walk_ok(mem, alloc, root, va, level - 1, c, s2);
    }
}

/// In a well formed boot page table, the walk below the frame `f` that the
/// walk of `va` reads at `level`, where it finds a page that does not reach
/// past the end of the address space, goes well for changing the property
/// of the base page: `seen` holds the frames read above.
pub proof fn lemma_boot_protect_walk_ok<E: PageTableEntryTrait>(
    mem: &PageTableMem<E>,
    alloc: CountingFrameAllocator,
    root: int,
    va: Vaddr,
    level: int,
    f: int,
    seen: Seq<int>,
)
    requires
        boot_wf(mem, alloc, root),
        1 <= level <= NR_LEVELS,
        root_walk(mem, root, va, level) == Some(f),
        seen.len() == NR_LEVELS - level,
        forall|j: int| 0 <= j < seen.len() ==> root_walk(mem, root, va, NR_LEVELS - j) == Some(#[trigger] seen[j]),
        mem.pte_walk((f * PAGE_SIZE) as Paddr, level, va) is Some,
        mem.walk_ok((f * PAGE_SIZE) as Paddr, level, va),
    ensures
        protect_walk_ok(mem, alloc, f, level, va, seen),
    decreases level,
{
    lemma_page_size_values();
    let n = mem.ptes@.len();
    assert(frame_ok(mem, alloc, f));
    assert(f * 4096 <= u64::MAX) by (nonlinear_arith)
        requires 0 <= f < n, n * 4096 <= u64::MAX;
    let pa = (f * PAGE_SIZE) as Paddr;
    assert(frame_of(pa) == f && pa % 4096 == 0) by (nonlinear_arith)
        requires pa == f * 4096, 0 <= f;
    let i = pte_index_spec(va, level) as int;
    let pte = fpte(mem, f, i);
    assert(mem.pte(pa, i) == pte);
    assert(!seen.contains(f)) by {
        if seen.contains(f) {
            let j = choose|j: int| 0 <= j < seen.len() && seen[j] == f;
            assert(root_walk(mem, root, va, NR_LEVELS - j) == Some(seen[j]));
            assert(root_walk(mem, root, va, NR_LEVELS - j) == root_walk(mem, root, va, level));
        }
    }
    if level > 1 && !pte.spec_last(level as PagingLevel) {
        assert(is_link(mem, f, level, i));
        let c = (pte.spec_paddr() / PAGE_SIZE) as int;
        lemma_walk_frame_next(mem, root, NR_LEVELS as int, va, level);
        assert(root_walk(mem, root, va, level - 1) == Some(c));
        assert(pte.spec_paddr() % 4096 == 0);
        assert(frame_ok(mem, alloc, c));
        assert(pte.spec_paddr() == c * 4096) by (nonlinear_arith)
            requires pte.spec_paddr() % 4096 == 0, c == pte.spec_paddr() / 4096;
        let s2 = seen.push(f);
        assert forall|j: int| 0 <= j < s2.len() implies root_walk(mem, root, va, NR_LEVELS - j) == Some(#[trigger] s2[j]) by {
            if j < seen.len() {
                assert(root_walk(mem, root, va, NR_LEVELS - j) == Some(seen[j]));
            }
        }
        lemma_boot_protect_walk_ok(mem, alloc, root, va, level - 1, c, s2);
    }
}

/// An allocator that can hand out `n` frames can hand out fewer.
pub proof fn lemma_alloc_ok_fewer<E: PageTableEntryTrait>(mem: &PageTableMem<E>, alloc: CountingFrameAllocator, n: nat, k: nat)
    requires
        alloc_ok(mem, alloc, n),
        k <= n,
    ensures
        alloc_ok(mem, alloc, k),
{
    assert(k * PAGE_SIZE_BYTES <= n * PAGE_SIZE_BYTES) by (nonlinear_arith)
        requires k <= n;
}

/// Mapping a base page allocates at most one frame per level below the
/// root.
pub proof fn lemma_map_walk_missing_bound<E: PageTableEntryTrait>(mem: &PageTableMem<E>, f: int, level: int, va: Vaddr)
    requires
        1 <= level,
    ensures
        map_walk_missing(mem, f, level, va) <= level - 1,
    decreases level,
{
    let pte = fpte(mem, f, pte_index_spec(va, level) as int);
    if level > 1 && pte.spec_present() {
        lemma_map_walk_missing_bound(mem, (pte.spec_paddr() / PAGE_SIZE) as int, level - 1, va);
    }
}

/// Changing the property of a base page splits at most one page per level
/// below the root.
pub proof fn lemma_protect_walk_splits_bound<E: PageTableEntryTrait>(mem: &PageTableMem<E>, f: int, level: int, va: Vaddr)
    requires
        1 <= level,
    ensures
        protect_walk_splits(mem, f, level, va) <= level - 1,
    decreases level,
{
    let pte = fpte(mem, f, pte_index_spec(va, level) as int);
    if level > 1 && !pte.spec_last(level as PagingLevel) {
        lemma_protect_walk_splits_bound(mem, (pte.spec_paddr() / PAGE_SIZE) as int, level - 1, va);
    }
}

impl<E: PageTableEntryTrait> BootPageTable<E> {
    /// The physical address of the root node.
    pub fn root_address(&self) -> (r: Paddr)
        requires
            self.root_pt * PAGE_SIZE <= u64::MAX,
        ensures
            r == self.root_pt * PAGE_SIZE,
    {
        (self.root_pt as u64) * BASE_PAGE_SIZE
    }

    /// Allocates a zeroed frame for a new child node and returns a PTE that
    /// points to it, marked with `PageFlags::AVAIL1` as allocated by the
    /// boot page table.
    ///
    /// Running out of frames panics (excluded here).
    fn alloc_child(&mut self, mem: &mut PageTableMem<E>, alloc: &mut CountingFrameAllocator) -> (r: E)
        requires
            alloc_ok(old(mem), *old(alloc), 1),
        ensures
            *final(self) == *old(self),
            final(mem).nodes == old(mem).nodes,
            final(mem).ptes@.len() == old(mem).ptes@.len(),
            r.spec_present(),
            forall|l: PagingLevel| !#[trigger] r.spec_last(l),
            marked_avail1(r),
            r.spec_paddr() % PAGE_SIZE == 0,
            ({
                let f = (r.spec_paddr() / PAGE_SIZE) as int;
                &&& 0 <= f < old(mem).ptes@.len()
                &&& is_free_frame(*old(alloc), f)
                &&& !is_free_frame(*final(alloc), f)
                &&& forall|g: usize| g != f ==> #[trigger] final(alloc).free_frames().count(g) == old(alloc).free_frames().count(g)
                &&& forall|n: nat| alloc_ok(old(mem), *old(alloc), n + 1) ==> #[trigger] alloc_ok(final(mem), *final(alloc), n)
                &&& forall|j: int| 0 <= j < old(mem).ptes@.len() && j != f ==> #[trigger] final(mem).ptes@[j] == old(mem).ptes@[j]
                &&& final(mem).ptes@[f]@.len() == 512
                &&& forall|i: int| 0 <= i < 512 ==> !(#[trigger] final(mem).ptes@[f]@[i]).spec_present()
                &&& forall|i: int, l: PagingLevel| 0 <= i < 512 ==> !(#[trigger] final(mem).ptes@[f]@[i].spec_last(l))
            }),
    {
        proof {
            broadcast use vstd::multiset::group_multiset_axioms;
            reveal_with_fuel(next_power_of_two_spec, 2);
        }
        let res = alloc.alloc_frames(1);
        let frame = match res {
            Some(f) => f,
            None => {
                proof {
                    vstd::multiset::lemma_multiset_empty_len(old(alloc).free_frames());
                    let v = choose|v: usize| 0 < old(alloc).free_frames().count(v);
                    assert(old(alloc).free_frames().count(v) == 0);
                }
                0
            },
        };
        proof {
            assert(crate::mm::frame::allocator::in_block(frame, frame as int, 1));
            assert(old(alloc).free_frames().count(frame) == 1);
            let nlen = old(mem).ptes@.len();
            assert(frame * 4096 < nlen * 4096) by (nonlinear_arith)
                requires frame < nlen;
        }
        // The allocated frame is zeroed, so all its entries are absent.
        mem.zero_frame(frame);
        let paddr = (frame as u64) * BASE_PAGE_SIZE;
        let mut pte = E::new_pt(paddr);
        let prop = pte.prop();
        pte.set_prop(PageProperty::new(prop.flags.union(PageFlags::AVAIL1())));
        proof {
            assert(paddr % 4096 == 0 && paddr / 4096 == frame) by (nonlinear_arith)
                requires paddr == frame * 4096;
            assert forall|n: nat| alloc_ok(old(mem), *old(alloc), n + 1) implies #[trigger] alloc_ok(mem, *alloc, n) by {
                assert(alloc.free_frames().len() == old(alloc).free_frames().len() - 1) by {
                    assert(alloc.free_frames() =~= old(alloc).free_frames().remove(frame));
                }
                assert forall|f: usize| #[trigger] alloc.free_frames().count(f) > 0 implies f < mem.ptes@.len() && alloc.free_frames().count(f) == 1 by {
                    assert(old(alloc).free_frames().count(f) > 0);
                }
            }
        }
        pte
    }
}

impl<E: PageTableEntryTrait> BootPageTable<E> {
    /// Maps the base page at `from` to frame number `to` with `prop`,
    /// allocating the missing nodes on the way down.
    ///
    /// The allocator loses exactly the frames of the new nodes, one per
    /// missing level. On a well formed table (`boot_wf`, where no frame is
    /// shared between walk positions) every other page translates as
    /// before, the table stays well formed, and the frames the allocator
    /// lost lie on the walk of `from`.
    ///
    /// Mapping inside a huge page or over a mapped page panics (excluded
    /// here), as does running out of frames.
    pub fn map_base_page(
        &mut self,
        mem: &mut PageTableMem<E>,
        alloc: &mut CountingFrameAllocator,
        from: Vaddr,
        to: FrameNumber,
        prop: PageProperty,
    )
        requires
            map_walk_ok(old(mem), *old(alloc), old(self).root_pt as int, NR_LEVELS as int, from, Seq::empty()),
            alloc_ok(old(mem), *old(alloc), map_walk_missing(old(mem), old(self).root_pt as int, NR_LEVELS as int, from)),
            to * PAGE_SIZE + PAGE_SIZE <= u64::MAX + 1,
        ensures
            *final(self) == *old(self),
            final(mem).nodes == old(mem).nodes,
            final(mem).ptes@.len() == old(mem).ptes@.len(),
            page_mapped(final(mem), (old(self).root_pt * PAGE_SIZE) as Paddr, from, to * PAGE_SIZE, prop),
            forall|f: usize| #[trigger] final(alloc).free_frames().count(f) <= old(alloc).free_frames().count(f),
            boot_wf(old(mem), *old(alloc), old(self).root_pt as int) ==> {
                &&& boot_wf(final(mem), *final(alloc), old(self).root_pt as int)
                &&& forall|va: Vaddr| !same_walk_above(va, from, 0)
                    ==> #[trigger] final(mem).pte_walk((old(self).root_pt * PAGE_SIZE) as Paddr, NR_LEVELS as int, va)
                        == old(mem).pte_walk((old(self).root_pt * PAGE_SIZE) as Paddr, NR_LEVELS as int, va)
                &&& forall|f: usize| #[trigger] final(alloc).free_frames().count(f) < old(alloc).free_frames().count(f)
                    ==> exists|l: int| 1 <= l < NR_LEVELS && root_walk(final(mem), old(self).root_pt as int, from, l) == Some(f as int)
            },
            final(alloc).free_frames().len() + map_walk_missing(old(mem), old(self).root_pt as int, NR_LEVELS as int, from)
                == old(alloc).free_frames().len(),
            forall|n: nat| alloc_ok(old(mem), *old(alloc), n + map_walk_missing(old(mem), old(self).root_pt as int, NR_LEVELS as int, from))
                ==> #[trigger] alloc_ok(final(mem), *final(alloc), n),
    {
        let ghost root_pa = (old(self).root_pt * PAGE_SIZE) as Paddr;
        let ghost miss0 = map_walk_missing(old(mem), old(self).root_pt as int, NR_LEVELS as int, from);
        proof {
            lemma_page_size_values();
            assert(root_walk(mem, self.root_pt as int, from, NR_LEVELS as int) == Some(self.root_pt as int));
            assert(frame_ok(mem, *alloc, self.root_pt as int));
            let n = mem.ptes@.len();
            let r = self.root_pt as int;
            assert(r * 4096 <= u64::MAX) by (nonlinear_arith)
                requires 0 <= r < n, n * 4096 <= u64::MAX;
            assert(root_pa == r * 4096);
            assert(frame_of(root_pa) == r) by (nonlinear_arith)
                requires root_pa == r * 4096, 0 <= r;
        }
        let ghost wf0 = boot_wf(old(mem), *old(alloc), old(self).root_pt as int);
        let mut pt: usize = self.root_pt;
        let mut level: PagingLevel = NR_LEVELS;
        let ghost mut path: Seq<int> = Seq::empty();
        let ghost root = self.root_pt as int;
        let nlen = mem.ptes.len();
        while level > 1
            invariant
                1 <= level <= NR_LEVELS,
                path.len() == NR_LEVELS - level,
                root == old(self).root_pt,
                *self == *old(self),
                path.len() > 0 ==> path[0] == root,
                path.len() == 0 ==> pt == root,
                nlen == mem.ptes@.len(),
                mem.ptes@.len() == old(mem).ptes@.len(),
                mem.nodes == old(mem).nodes,
                path_links(mem, path, pt as int, from),
                map_walk_ok(mem, *alloc, pt as int, level as int, from, path),
                alloc_ok(mem, *alloc, map_walk_missing(mem, pt as int, level as int, from)),
                forall|j: int| 0 <= j < path.len() ==> !is_free_frame(*alloc, #[trigger] path[j]),
                0 <= root < mem.ptes@.len(),
                root_pa == root * PAGE_SIZE,
                miss0 == map_walk_missing(old(mem), root, NR_LEVELS as int, from),
                wf0 == boot_wf(old(mem), *old(alloc), root),
                wf0 ==> boot_wf(mem, *alloc, root),
                wf0 ==> root_walk(mem, root, from, level as int) == Some(pt as int),
                wf0 ==> forall|va: Vaddr| #[trigger] mem.pte_walk(root_pa, NR_LEVELS as int, va) == old(mem).pte_walk(root_pa, NR_LEVELS as int, va),
                forall|f: usize| #[trigger] alloc.free_frames().count(f) <= old(alloc).free_frames().count(f),
                wf0 ==> forall|f: usize| #[trigger] alloc.free_frames().count(f) < old(alloc).free_frames().count(f)
                    ==> exists|l: int| level <= l < NR_LEVELS && root_walk(mem, root, from, l) == Some(f as int),
                alloc.free_frames().len() + miss0 == old(alloc).free_frames().len() + map_walk_missing(mem, pt as int, level as int, from),
                forall|n: nat| alloc_ok(old(mem), *old(alloc), n + miss0)
                    ==> #[trigger] alloc_ok(mem, *alloc, n + map_walk_missing(mem, pt as int, level as int, from)),
            decreases level,
        {
            proof {
                lemma_page_size_values();
            }
            let index = pte_index(from, level);
            let pte = mem.read_pte_frame(pt, index);
            let ghost mem0 = *mem;
            let ghost alloc0 = *alloc;
            let ghost lv = level as int;
            let next: usize;
            if !pte.is_present() {
                let child = self.alloc_child(mem, alloc);
                let ghost mem_z = *mem;
                mem.write_pte_at(pt, index, child);
                next = (child.paddr() / BASE_PAGE_SIZE) as usize;
                proof {
                    let g = next as int;
                    assert(!path.contains(g)) by {
                        if path.contains(g) {
                            let j = choose|j: int| 0 <= j < path.len() && path[j] == g;
                            assert(!is_free_frame(alloc0, path[j]));
                        }
                    }
                    assert(g != pt);
                    assert forall|j: int| 0 <= j < path.len() implies !is_free_frame(*alloc, #[trigger] path[j]) by {
                        assert(!is_free_frame(alloc0, path[j]));
                        assert(path[j] != g);
                    }
                    assert forall|j: int| 0 <= j < path.len() implies #[trigger] mem.ptes@[path[j]] == mem0.ptes@[path[j]] by {
                        assert(link_ok(&mem0, path, pt as int, from, j));
                        assert(path[j] != g);
                        assert(path[j] != pt as int) by {
                            assert(path.contains(path[j]));
                        }
                    }
                    // The new frame is all absent: its walk allocates the
                    // remaining levels and needs nothing else.
                    assert(mem.ptes@[g] == mem_z.ptes@[g]);
                    assert(map_walk_ok(mem, *alloc, g, lv - 1, from, path.push(pt as int))) by {
                        lemma_page_size_values();
                        assert(!path.push(pt as int).contains(g)) by {
                            if path.push(pt as int).contains(g) {
                                let j = choose|j: int| 0 <= j < path.push(pt as int).len() && path.push(pt as int)[j] == g;
                                if j < path.len() {
                                    assert(path.contains(g));
                                }
                            }
                        }
                    }
                    assert(map_walk_missing(mem, g, lv - 1, from) == (lv - 2) as nat) by {
                        lemma_page_size_values();
                    }
                    assert(map_walk_missing(&mem0, pt as int, lv, from) == (lv - 1) as nat);
                    assert(alloc_ok(&mem_z, *alloc, (lv - 2) as nat)) by {
                        assert(alloc_ok(&mem0, alloc0, ((lv - 2) + 1) as nat));
                    }
                }
                proof {
                    broadcast use vstd::multiset::group_multiset_axioms;
                    let g = next as int;
                    let i = pte_index_spec(from, lv) as int;
                    let n = mem0.ptes@.len();
                    let p0 = pt as int;
                    assert(p0 * 4096 <= u64::MAX) by (nonlinear_arith)
                        requires 0 <= p0 < n, n * 4096 <= u64::MAX;
                    assert(frame_of((p0 * PAGE_SIZE) as Paddr) == p0) by (nonlinear_arith)
                        requires 0 <= p0, p0 * 4096 <= u64::MAX;
                    assert(child.spec_paddr() / PAGE_SIZE == g);
                    assert forall|f: int| 0 <= f < mem0.ptes@.len() && f != g
                        implies #[trigger] is_free_frame(*alloc, f) == is_free_frame(alloc0, f) by {
                        assert(alloc.free_frames().count(f as usize) == alloc0.free_frames().count(f as usize));
                    }
                    assert(mem.ptes@[p0]@ == mem0.ptes@[p0]@.update(i, fpte(mem, p0, i)));
                    assert forall|k: int| 0 <= k < 512 implies !#[trigger] is_link(mem, g, lv - 1, k) by {
                        assert(mem.ptes@[g] == mem_z.ptes@[g]);
                    }
                    assert forall|va: Vaddr| root_walk(&mem0, root, va, lv) == Some(p0) && pte_index_spec(va, lv) == i
                        implies #[trigger] mem.pte_walk(fpte(mem, p0, i).spec_paddr(), lv - 1, va)
                            == mem0.pte_walk((p0 * PAGE_SIZE) as Paddr, lv, va) by {
                        let j = pte_index_spec(va, lv - 1) as int;
                        assert(j < 512) by {
                            vstd::arithmetic::div_mod::lemma_mod_bound((va as nat / page_size_spec(lv - 1)) as int, 512);
                        }
                        assert(mem.ptes@[g] == mem_z.ptes@[g]);
                        assert(mem.pte(fpte(mem, p0, i).spec_paddr(), j) == fpte(mem, g, j));
                        assert(mem0.pte((p0 * PAGE_SIZE) as Paddr, i) == fpte(&mem0, p0, i));
                    }
                    // The allocator lost `g`, now a node on the walk of `from`.
                    assert(alloc0.free_frames().count(next) == 1);
                    assert(alloc.free_frames().count(next) == 0);
                    assert(alloc.free_frames() =~= alloc0.free_frames().remove(next));
                    if wf0 {
                        assert(relinked(&mem0, mem, alloc0, *alloc, root, from, lv, p0, g));
                        lemma_relink(&mem0, mem, alloc0, *alloc, root, from, lv, p0, g);
                        assert forall|f: usize| #[trigger] alloc.free_frames().count(f) < old(alloc).free_frames().count(f)
                            implies exists|l: int| lv - 1 <= l < NR_LEVELS && root_walk(mem, root, from, l) == Some(f as int) by {
                            if f == next {
                                assert(root_walk(mem, root, from, lv - 1) == Some(f as int));
                            } else {
                                assert(alloc0.free_frames().count(f) < old(alloc).free_frames().count(f));
                                let l = choose|l: int| lv <= l < NR_LEVELS && root_walk(&mem0, root, from, l) == Some(f as int);
                                assert(root_walk(mem, root, from, l) == root_walk(&mem0, root, from, l));
                            }
                        }
                    }
                    assert forall|n2: nat| alloc_ok(old(mem), *old(alloc), n2 + miss0)
                        implies #[trigger] alloc_ok(mem, *alloc, n2 + map_walk_missing(mem, g, lv - 1, from)) by {
                        assert(alloc_ok(&mem0, alloc0, n2 + map_walk_missing(&mem0, p0, lv, from)));
                        assert(alloc_ok(&mem0, alloc0, (n2 + map_walk_missing(mem, g, lv - 1, from)) + 1));
                        assert(alloc_ok(&mem_z, *alloc, n2 + map_walk_missing(mem, g, lv - 1, from)));
                    }
                }
            } else if pte.is_last(level) {
                proof {
                    assert(false);
                }
                next = pt;
            } else {
                proof {
                    reveal_with_fuel(map_walk_ok, 2);
                    assert(map_walk_ok(mem, *alloc, pt as int, lv, from, path));
                    assert(fpte(mem, pt as int, pte_index_spec(from, lv) as int) == pte);
                    assert(frame_ok(mem, *alloc, (pte.spec_paddr() / PAGE_SIZE) as int));
                }
                next = (pte.paddr() / BASE_PAGE_SIZE) as usize;
                proof {
                    let i = pte_index_spec(from, lv) as int;
                    assert(is_link(mem, pt as int, lv, i));
                    assert(map_walk_missing(mem, pt as int, lv, from) == map_walk_missing(mem, next as int, lv - 1, from));
                    if wf0 {
                        lemma_walk_frame_next(mem, root, NR_LEVELS as int, from, lv);
                        assert(root_walk(mem, root, from, lv - 1) == Some(next as int));
                        assert forall|f: usize| #[trigger] alloc.free_frames().count(f) < old(alloc).free_frames().count(f)
                            implies exists|l: int| lv - 1 <= l < NR_LEVELS && root_walk(mem, root, from, l) == Some(f as int) by {
                            let l = choose|l: int| lv <= l < NR_LEVELS && root_walk(mem, root, from, l) == Some(f as int);
                        }
                    }
                }
            }
            proof {
                let new_path = path.push(pt as int);
                assert forall|j: int| 0 <= j < path.len() implies #[trigger] mem.ptes@[path[j]] == mem0.ptes@[path[j]] by {
                    assert(link_ok(&mem0, path, pt as int, from, j));
                    if pte.spec_present() {
                    } else {
                        assert(path[j] != next as int) by {
                            assert(!is_free_frame(alloc0, path[j]));
                        }
                        assert(path[j] != pt as int) by {
                            assert(path.contains(path[j]));
                        }
                    }
                }
                let e = fpte(mem, pt as int, pte_index_spec(from, lv) as int);
                assert(e.spec_present() && !e.spec_last(lv as PagingLevel) && e.spec_paddr() == next * PAGE_SIZE) by {
                    let n = mem.ptes@.len();
                    let pa = e.spec_paddr();
                    assert(pa % 4096 == 0);
                    assert(pa == (pa / 4096) * 4096) by (nonlinear_arith)
                        requires pa % 4096 == 0;
                }
                assert(path_links(mem, new_path, next as int, from)) by {
                    assert forall|j: int| 0 <= j < new_path.len() implies #[trigger] link_ok(mem, new_path, next as int, from, j) by {
                        if j < path.len() {
                            assert(link_ok(&mem0, path, pt as int, from, j));
                            assert(mem.ptes@[path[j]] == mem0.ptes@[path[j]]);
                        }
                    }
                }
            }
            proof {
                path = path.push(pt as int);
            }
            pt = next;
            level = level - 1;
        }
        proof {
            lemma_page_size_values();
        }
        let index = pte_index(from, 1);
        let pte = mem.read_pte_frame(pt, index);
        if pte.is_present() {
            proof {
                assert(false);
            }
        }
        let ghost mem1 = *mem;
        let new_pte = E::new_page((to as u64) * BASE_PAGE_SIZE, 1, prop);
        mem.write_pte_at(pt, index, new_pte);
        proof {
            assert(path_links(mem, path, pt as int, from)) by {
                assert forall|j: int| 0 <= j < path.len() implies #[trigger] link_ok(mem, path, pt as int, from, j) by {
                    assert(path.contains(path[j]));
                    assert(link_ok(&mem1, path, pt as int, from, j));
                    assert(mem.ptes@[path[j]] == mem1.ptes@[path[j]]);
                }
            }
            lemma_map_result(mem, path, pt as int, from, old(self).root_pt as int, to * PAGE_SIZE, prop);
            assert(mem.ptes@[pt as int]@ == mem1.ptes@[pt as int]@.update(pte_index_spec(from, 1) as int, fpte(mem, pt as int, pte_index_spec(from, 1) as int)));
            if wf0 {
                lemma_leaf_write(&mem1, mem, *alloc, root, from, pt as int);
                assert forall|f: usize| #[trigger] alloc.free_frames().count(f) < old(alloc).free_frames().count(f)
                    implies exists|l: int| 1 <= l < NR_LEVELS && root_walk(mem, root, from, l) == Some(f as int) by {
                    let l = choose|l: int| 1 <= l < NR_LEVELS && root_walk(&mem1, root, from, l) == Some(f as int);
                    assert(root_walk(mem, root, from, l) == root_walk(&mem1, root, from, l));
                }
            }
            assert(map_walk_missing(&mem1, pt as int, 1, from) == 0);
            assert forall|n: nat| alloc_ok(old(mem), *old(alloc), n + miss0) implies #[trigger] alloc_ok(mem, *alloc, n) by {
                assert(alloc_ok(&mem1, *alloc, n + map_walk_missing(&mem1, pt as int, 1, from)));
            }
        }
    }
}

/// After the base entry is written, every address of the page walks to the
/// mapped frame.
proof fn lemma_map_result<E: PageTableEntryTrait>(
    mem: &PageTableMem<E>,
    path: Seq<int>,
    pt: int,
    from: Vaddr,
    root: int,
    pa: int,
    prop: PageProperty,
)
    requires
        path.len() == NR_LEVELS - 1,
        path[0] == root,
        path_links(mem, path, pt, from),
        mem.ptes@.len() * PAGE_SIZE <= u64::MAX,
        0 <= pt < mem.ptes@.len(),
        mem.ptes@[pt]@.len() == 512,
        0 <= pa,
        pa + PAGE_SIZE <= u64::MAX + 1,
        fpte(mem, pt, pte_index_spec(from, 1) as int).spec_present(),
        fpte(mem, pt, pte_index_spec(from, 1) as int).spec_paddr() == pa,
        fpte(mem, pt, pte_index_spec(from, 1) as int).spec_prop() == prop,
    ensures
        page_mapped(mem, (root * PAGE_SIZE) as Paddr, from, pa, prop),
{
    let root_pa = (root * PAGE_SIZE) as Paddr;
    assert forall|va: Vaddr| #![trigger mem.walk_ok(root_pa, NR_LEVELS as int, va)] va as int / 4096 == from as int / 4096
        implies mem.walk_ok(root_pa, NR_LEVELS as int, va) && walk_maps(mem, root_pa, va, (pa + va % PAGE_SIZE) as Paddr, prop) by {
        let n = mem.ptes@.len();
        assert(pt * 4096 <= u64::MAX) by (nonlinear_arith)
            requires 0 <= pt < n, n * 4096 <= u64::MAX;
        assert((pt * 4096) / 4096 == pt && (pt * 4096) % 4096 == 0) by (nonlinear_arith)
            requires 0 <= pt;
        lemma_page_size_values();
        lemma_same_prefix_above(va, from, 1, 1);
        assert(pte_index_spec(va, 1) == pte_index_spec(from, 1));
        let pt_pa = (pt * PAGE_SIZE) as Paddr;
        assert(pt_pa == pt * 4096);
        assert(frame_of(pt_pa) == pt);
        assert(pt_pa % 4096 == 0);
        assert(mem.pte(pt_pa, pte_index_spec(va, 1) as int) == fpte(mem, pt, pte_index_spec(from, 1) as int));
        assert(mem.walk_ok(pt_pa, 1, va));
        assert(page_offset(va, 1) == va % PAGE_SIZE);
        assert(mem.pte_walk(pt_pa, 1, va) == Some(((pa + va % PAGE_SIZE) as Paddr, prop)));
        lemma_path_walk(mem, path, pt, from, va, 0);
    }
}

/// Whether changing the property of the base page at `va` from frame `f` of
/// `level` goes well: every entry on the walk is present, huge pages on it
/// do not reach past the end of the physical address space, and the walk
/// reads frames that are not free and not in `seen`.
pub open spec fn protect_walk_ok<E: PageTableEntryTrait>(
    mem: &PageTableMem<E>,
    alloc: CountingFrameAllocator,
    f: int,
    level: int,
    va: Vaddr,
    seen: Seq<int>,
) -> bool
    decreases level,
{
    let pte = fpte(mem, f, pte_index_spec(va, level) as int);
    &&& frame_ok(mem, alloc, f)
    &&& !seen.contains(f)
    &&& pte.spec_present()
    &&& level == 1 ==> pte.spec_paddr() + PAGE_SIZE <= u64::MAX + 1
    &&& level > 1 ==> if pte.spec_last(level as PagingLevel) {
        pte.spec_paddr() + page_size_spec(level) <= u64::MAX + 1
    } else {
        &&& pte.spec_paddr() % PAGE_SIZE == 0
        &&& protect_walk_ok(mem, alloc, (pte.spec_paddr() / PAGE_SIZE) as int, level - 1, va, seen.push(f))
    }
}

/// The number of frames that splitting huge pages on the walk of `va`
/// allocates: one per level below the first huge page.
pub open spec fn protect_walk_splits<E: PageTableEntryTrait>(mem: &PageTableMem<E>, f: int, level: int, va: Vaddr) -> nat
    decreases level,
{
    let pte = fpte(mem, f, pte_index_spec(va, level) as int);
    if level <= 1 {
        0
    } else if pte.spec_last(level as PagingLevel) {
        (level - 1) as nat
    } else {
        protect_walk_splits(mem, (pte.spec_paddr() / PAGE_SIZE) as int, level - 1, va)
    }
}

/// The offset of `va` in a page of level `l + 1` is that of its entry in
/// the node of level `l` plus its offset in the page of level `l`.
proof fn lemma_offset_step(va: Vaddr, l: int)
    requires
        1 <= l <= 5,
    ensures
        va as int % (page_size_spec(l + 1) as int) == pte_index_spec(va, l) * page_size_spec(l) + va as int % (page_size_spec(l) as int),
{
    lemma_page_size_values();
    assert(page_size_spec(l + 1) == 512 * page_size_spec(l)) by {
        reveal_with_fuel(page_size_spec, 2);
    }
    assert(page_size_spec(l) > 0);
    vstd::arithmetic::div_mod::lemma_mod_breakdown(va as int, page_size_spec(l) as int, 512);
    vstd::arithmetic::mul::lemma_mul_is_commutative(page_size_spec(l) as int, 512);
    vstd::arithmetic::mul::lemma_mul_is_commutative(page_size_spec(l) as int, pte_index_spec(va, l) as int);
}

/// Whether a fresh frame `g` at `level` holds 512 huge-page entries of
/// `level` from `pa` on, one page apart, as splitting writes them.
pub open spec fn split_frame<E: PageTableEntryTrait>(mem: &PageTableMem<E>, g: int, level: int, pa: int, prop: PageProperty) -> bool {
    &&& mem.ptes@[g]@.len() == 512
    &&& forall|i: int| 0 <= i < 512 ==> {
        let e = #[trigger] mem.ptes@[g]@[i];
        &&& e.spec_present()
        &&& forall|l: PagingLevel| #[trigger] e.spec_last(l)
        &&& e.spec_paddr() == pa + i * page_size_spec(level)
        &&& e.spec_prop() == prop
    }
}

impl<E: PageTableEntryTrait> BootPageTable<E> {
    /// Changes the property of the mapped base page at `virt_addr` with
    /// `op`. A huge page on the way is split into pages of the level below,
    /// in new frames, with the same physical pages and property, until a
    /// base page maps the address.
    ///
    /// The allocator loses exactly the frames of the new nodes. On a well
    /// formed table (`boot_wf`) every other page translates as before, the
    /// rest of a split huge page included, the table stays well formed, and
    /// the frames the allocator lost lie on the walk of `virt_addr`.
    ///
    /// Protecting an unmapped page panics (excluded here), as does running
    /// out of frames for splitting.
    pub fn protect_base_page<F: Fn(PageProperty) -> PageProperty>(
        &mut self,
        mem: &mut PageTableMem<E>,
        alloc: &mut CountingFrameAllocator,
        virt_addr: Vaddr,
        op: &F,
    )
        requires
            protect_walk_ok(old(mem), *old(alloc), old(self).root_pt as int, NR_LEVELS as int, virt_addr, Seq::empty()),
            alloc_ok(old(mem), *old(alloc), protect_walk_splits(old(mem), old(self).root_pt as int, NR_LEVELS as int, virt_addr)),
            forall|p: PageProperty| #[trigger] op.requires((p,)),
        ensures
            *final(self) == *old(self),
            final(mem).nodes == old(mem).nodes,
            final(mem).ptes@.len() == old(mem).ptes@.len(),
            forall|f: usize| #[trigger] final(alloc).free_frames().count(f) <= old(alloc).free_frames().count(f),
            boot_wf(old(mem), *old(alloc), old(self).root_pt as int) ==> {
                &&& boot_wf(final(mem), *final(alloc), old(self).root_pt as int)
                &&& forall|va: Vaddr| !same_walk_above(va, virt_addr, 0)
                    ==> #[trigger] final(mem).pte_walk((old(self).root_pt * PAGE_SIZE) as Paddr, NR_LEVELS as int, va)
                        == old(mem).pte_walk((old(self).root_pt * PAGE_SIZE) as Paddr, NR_LEVELS as int, va)
                &&& forall|f: usize| #[trigger] final(alloc).free_frames().count(f) < old(alloc).free_frames().count(f)
                    ==> exists|l: int| 1 <= l < NR_LEVELS && root_walk(final(mem), old(self).root_pt as int, virt_addr, l) == Some(f as int)
            },
            final(alloc).free_frames().len() + protect_walk_splits(old(mem), old(self).root_pt as int, NR_LEVELS as int, virt_addr)
                == old(alloc).free_frames().len(),
            forall|n: nat| alloc_ok(old(mem), *old(alloc), n + protect_walk_splits(old(mem), old(self).root_pt as int, NR_LEVELS as int, virt_addr))
                ==> #[trigger] alloc_ok(final(mem), *final(alloc), n),
            ({
                let w = old(mem).pte_walk((old(self).root_pt * PAGE_SIZE) as Paddr, NR_LEVELS as int, virt_addr);
                &&& w is Some
                &&& exists|p: PageProperty| {
                    &&& op.ensures(((w->Some_0).1,), p)
                    &&& #[trigger] page_mapped(
                        final(mem),
                        (old(self).root_pt * PAGE_SIZE) as Paddr,
                        virt_addr,
                        (w->Some_0).0 - virt_addr % PAGE_SIZE,
                        p,
                    )
                }
            }),
    {
        let ghost root_pa = (old(self).root_pt * PAGE_SIZE) as Paddr;
        let ghost sp0 = protect_walk_splits(old(mem), old(self).root_pt as int, NR_LEVELS as int, virt_addr);
        proof {
            lemma_page_size_values();
            assert(root_walk(mem, self.root_pt as int, virt_addr, NR_LEVELS as int) == Some(self.root_pt as int));
            assert(frame_ok(mem, *alloc, self.root_pt as int));
            let n = mem.ptes@.len();
            let r = self.root_pt as int;
            assert(r * 4096 <= u64::MAX) by (nonlinear_arith)
                requires 0 <= r < n, n * 4096 <= u64::MAX;
            assert(root_pa == r * 4096);
        }
        let ghost wf0 = boot_wf(old(mem), *old(alloc), old(self).root_pt as int);
        let mut pt: usize = self.root_pt;
        let mut level: PagingLevel = NR_LEVELS;
        let ghost mut path: Seq<int> = Seq::empty();
        let ghost root = self.root_pt as int;
        let ghost mut split_seen = false;
        let ghost mut huge: int = 0;
        let ghost mut hprop: PageProperty = arbitrary();
        let ghost mut hl: int = 0;
        let nlen = mem.ptes.len();
        while level > 1
            invariant
                1 <= level <= NR_LEVELS,
                path.len() == NR_LEVELS - level,
                root == old(self).root_pt,
                *self == *old(self),
                path.len() > 0 ==> path[0] == root,
                path.len() == 0 ==> pt == root,
                nlen == mem.ptes@.len(),
                mem.ptes@.len() == old(mem).ptes@.len(),
                mem.nodes == old(mem).nodes,
                path_links(mem, path, pt as int, virt_addr),
                protect_walk_ok(mem, *alloc, pt as int, level as int, virt_addr, path),
                alloc_ok(mem, *alloc, protect_walk_splits(mem, pt as int, level as int, virt_addr)),
                forall|j: int| 0 <= j < path.len() ==> !is_free_frame(*alloc, #[trigger] path[j]),
                0 <= root < mem.ptes@.len(),
                root_pa == root * PAGE_SIZE,
                sp0 == protect_walk_splits(old(mem), root, NR_LEVELS as int, virt_addr),
                wf0 == boot_wf(old(mem), *old(alloc), root),
                wf0 ==> boot_wf(mem, *alloc, root),
                wf0 ==> root_walk(mem, root, virt_addr, level as int) == Some(pt as int),
                wf0 ==> forall|va: Vaddr| #[trigger] mem.pte_walk(root_pa, NR_LEVELS as int, va) == old(mem).pte_walk(root_pa, NR_LEVELS as int, va),
                forall|f: usize| #[trigger] alloc.free_frames().count(f) <= old(alloc).free_frames().count(f),
                wf0 ==> forall|f: usize| #[trigger] alloc.free_frames().count(f) < old(alloc).free_frames().count(f)
                    ==> exists|l: int| level <= l < NR_LEVELS && root_walk(mem, root, virt_addr, l) == Some(f as int),
                alloc.free_frames().len() + sp0 == old(alloc).free_frames().len() + protect_walk_splits(mem, pt as int, level as int, virt_addr),
                forall|n: nat| alloc_ok(old(mem), *old(alloc), n + sp0)
                    ==> #[trigger] alloc_ok(mem, *alloc, n + protect_walk_splits(mem, pt as int, level as int, virt_addr)),
                !split_seen ==> protect_walk_splits(old(mem), root, NR_LEVELS as int, virt_addr) == protect_walk_splits(
                    mem,
                    pt as int,
                    level as int,
                    virt_addr,
                ),
                !split_seen ==> old(mem).pte_walk((root * PAGE_SIZE) as Paddr, NR_LEVELS as int, virt_addr) == mem.pte_walk(
                    (pt * PAGE_SIZE) as Paddr,
                    level as int,
                    virt_addr,
                ),
                split_seen ==> {
                    &&& level < hl <= NR_LEVELS
                    &&& protect_walk_splits(old(mem), root, NR_LEVELS as int, virt_addr) == hl - 1
                    &&& old(mem).pte_walk((root * PAGE_SIZE) as Paddr, NR_LEVELS as int, virt_addr)
                        == Some(((huge + page_offset(virt_addr, hl)) as Paddr, hprop))
                    &&& huge + page_size_spec(hl) <= u64::MAX + 1
                    &&& 0 <= huge
                    &&& split_frame(mem, pt as int, level as int,
                        huge + virt_addr as int % (page_size_spec(hl) as int) - virt_addr as int % (page_size_spec(level + 1) as int), hprop)
                },
            decreases level,
        {
            proof {
                lemma_page_size_values();
            }
            let index = pte_index(virt_addr, level);
            let pte = mem.read_pte_frame(pt, index);
            let ghost mem0 = *mem;
            let ghost alloc0 = *alloc;
            let ghost lv = level as int;
            proof {
                assert(fpte(mem, pt as int, pte_index_spec(virt_addr, lv) as int) == pte);
            }
            let next: usize;
            if !pte.is_present() {
                proof {
                    assert(false);
                }
                next = pt;
            } else if pte.is_last(level) {
                // Split the huge page into pages of the level below.
                let child_pte = self.alloc_child(mem, alloc);
                let child_frame_pa = child_pte.paddr();
                let huge_pa = pte.paddr();
                let g = (child_frame_pa / BASE_PAGE_SIZE) as usize;
                let child_size = page_size(level - 1);
                let ghost mem_z = *mem;
                proof {
                    assert(page_size_spec(lv) == 512 * page_size_spec(lv - 1)) by {
                        reveal_with_fuel(page_size_spec, 2);
                    }
                    assert(page_size_spec(lv - 1) >= 4096);
                }
                let mut i: usize = 0;
                while i < 512
                    invariant
                        0 <= i <= 512,
                        g < mem.ptes@.len(),
                        mem.ptes@.len() == mem_z.ptes@.len(),
                        mem.nodes == mem_z.nodes,
                        mem.ptes@[g as int]@.len() == 512,
                        forall|j: int| 0 <= j < mem.ptes@.len() && j != g ==> #[trigger] mem.ptes@[j] == mem_z.ptes@[j],
                        huge_pa + page_size_spec(lv) <= u64::MAX + 1,
                        2 <= lv <= NR_LEVELS,
                        lv == level as int,
                        page_size_spec(lv) == 512 * page_size_spec(lv - 1),
                        page_size_spec(lv - 1) >= 4096,
                        child_size == page_size_spec(lv - 1),
                        forall|j: int| 0 <= j < i ==> {
                            let e = #[trigger] mem.ptes@[g as int]@[j];
                            &&& e.spec_present()
                            &&& forall|l: PagingLevel| #[trigger] e.spec_last(l)
                            &&& e.spec_paddr() == huge_pa + j * page_size_spec(lv - 1)
                            &&& e.spec_prop() == pte.spec_prop()
                        },
                    decreases 512 - i,
                {
                    proof {
                        assert(huge_pa + i * page_size_spec(lv - 1) < huge_pa + page_size_spec(lv)) by (nonlinear_arith)
                            requires i < 512, page_size_spec(lv) == 512 * page_size_spec(lv - 1), page_size_spec(lv - 1) >= 4096;
                    }
                    let e = E::new_page(huge_pa + (i as u64) * child_size, level - 1, pte.prop());
                    mem.write_pte_at(g, i, e);
                    i = i + 1;
                }
                let ghost mem_s = *mem;
                mem.write_pte_at(pt, index, E::new_pt(child_frame_pa));
                next = g;
                proof {
                    let gg = g as int;
                    assert(gg * 4096 == child_frame_pa) by (nonlinear_arith)
                        requires child_frame_pa % 4096 == 0, gg == child_frame_pa / 4096;
                    assert(!path.contains(gg)) by {
                        if path.contains(gg) {
                            let j = choose|j: int| 0 <= j < path.len() && path[j] == gg;
                            assert(!is_free_frame(alloc0, path[j]));
                        }
                    }
                    assert(gg != pt);
                    assert forall|j: int| 0 <= j < path.len() implies !is_free_frame(*alloc, #[trigger] path[j]) by {
                        assert(!is_free_frame(alloc0, path[j]));
                        assert(path[j] != gg);
                    }
                    assert(split_frame(mem, gg, lv - 1, huge_pa as int, pte.spec_prop()));
                    assert forall|n: nat| alloc_ok(&mem0, alloc0, n + 1) implies #[trigger] alloc_ok(mem, *alloc, n) by {
                        assert(alloc_ok(&mem_z, *alloc, n));
                    }
                    self.lemma_after_split(&mem0, mem, alloc0, *alloc, path, pt as int, gg, lv, virt_addr, huge_pa as int, pte.spec_prop());
                    let idx = pte_index_spec(virt_addr, lv) as int;
                    if !split_seen {
                        let n = mem0.ptes@.len();
                        let p0 = pt as int;
                        assert(p0 * 4096 <= u64::MAX) by (nonlinear_arith)
                            requires 0 <= p0 < n, n * 4096 <= u64::MAX;
                        assert((p0 * 4096) / 4096 == p0 && (p0 * 4096) % 4096 == 0) by (nonlinear_arith)
                            requires 0 <= p0;
                        assert(mem0.pte(((pt * PAGE_SIZE) as Paddr), idx) == pte);
                        assert(mem0.pte_walk((pt * PAGE_SIZE) as Paddr, lv, virt_addr)
                            == Some(((pte.spec_paddr() + page_offset(virt_addr, lv)) as Paddr, pte.spec_prop())));
                        huge = huge_pa as int;
                        hprop = pte.spec_prop();
                        hl = lv;
                    } else {
                        assert(pte == mem0.ptes@[pt as int]@[idx]);
                        lemma_offset_step(virt_addr, lv);
                    }
                    let base = huge + virt_addr as int % (page_size_spec(hl) as int) - virt_addr as int % (page_size_spec(lv) as int);
                    assert(huge_pa == base);
                    assert(split_frame(mem, gg, lv - 1, base, hprop));
                    split_seen = true;
                }
                proof {
                    broadcast use vstd::multiset::group_multiset_axioms;
                    let gg = g as int;
                    let i = pte_index_spec(virt_addr, lv) as int;
                    let n = mem0.ptes@.len();
                    let p0 = pt as int;
                    assert(p0 * 4096 <= u64::MAX) by (nonlinear_arith)
                        requires 0 <= p0 < n, n * 4096 <= u64::MAX;
                    assert(frame_of((p0 * PAGE_SIZE) as Paddr) == p0) by (nonlinear_arith)
                        requires 0 <= p0, p0 * 4096 <= u64::MAX;
                    assert forall|f: int| 0 <= f < mem0.ptes@.len() && f != gg
                        implies #[trigger] is_free_frame(*alloc, f) == is_free_frame(alloc0, f) by {
                        assert(alloc.free_frames().count(f as usize) == alloc0.free_frames().count(f as usize));
                    }
                    assert(mem_s.ptes@[p0] == mem0.ptes@[p0]);
                    assert(mem.ptes@[p0]@ == mem0.ptes@[p0]@.update(i, fpte(mem, p0, i)));
                    assert forall|j: int| 0 <= j < mem0.ptes@.len() && j != p0 && j != gg implies #[trigger] mem.ptes@[j] == mem0.ptes@[j] by {
                        assert(mem_s.ptes@[j] == mem_z.ptes@[j]);
                    }
                    assert(mem.ptes@[gg] == mem_s.ptes@[gg]);
                    assert forall|k: int| 0 <= k < 512 implies !#[trigger] is_link(mem, gg, lv - 1, k) by {
                        assert(fpte(mem, gg, k).spec_last((lv - 1) as PagingLevel));
                    }
                    assert forall|va: Vaddr| root_walk(&mem0, root, va, lv) == Some(p0) && pte_index_spec(va, lv) == i
                        implies #[trigger] mem.pte_walk(fpte(mem, p0, i).spec_paddr(), lv - 1, va)
                            == mem0.pte_walk((p0 * PAGE_SIZE) as Paddr, lv, va) by {
                        let j = pte_index_spec(va, lv - 1) as int;
                        assert(j < 512) by {
                            vstd::arithmetic::div_mod::lemma_mod_bound((va as nat / page_size_spec(lv - 1)) as int, 512);
                        }
                        let e = fpte(mem, gg, j);
                        assert(mem.pte(fpte(mem, p0, i).spec_paddr(), j) == e);
                        assert(e.spec_last((lv - 1) as PagingLevel));
                        assert(e.spec_paddr() == huge_pa + j * page_size_spec(lv - 1));
                        assert(mem0.pte((p0 * PAGE_SIZE) as Paddr, i) == pte);
                        lemma_offset_step(va, lv - 1);
                    }
                    assert(alloc0.free_frames().count(g) == 1);
                    assert(alloc.free_frames().count(g) == 0);
                    assert(alloc.free_frames() =~= alloc0.free_frames().remove(g));
                    if wf0 {
                        assert(relinked(&mem0, mem, alloc0, *alloc, root, virt_addr, lv, p0, gg));
                        lemma_relink(&mem0, mem, alloc0, *alloc, root, virt_addr, lv, p0, gg);
                        assert forall|f: usize| #[trigger] alloc.free_frames().count(f) < old(alloc).free_frames().count(f)
                            implies exists|l: int| lv - 1 <= l < NR_LEVELS && root_walk(mem, root, virt_addr, l) == Some(f as int) by {
                            if f == g {
                                assert(root_walk(mem, root, virt_addr, lv - 1) == Some(f as int));
                            } else {
                                assert(alloc0.free_frames().count(f) < old(alloc).free_frames().count(f));
                                let l = choose|l: int| lv <= l < NR_LEVELS && root_walk(&mem0, root, virt_addr, l) == Some(f as int);
                                assert(root_walk(mem, root, virt_addr, l) == root_walk(&mem0, root, virt_addr, l));
                            }
                        }
                    }
                    assert forall|n2: nat| alloc_ok(old(mem), *old(alloc), n2 + sp0)
                        implies #[trigger] alloc_ok(mem, *alloc, n2 + protect_walk_splits(mem, gg, lv - 1, virt_addr)) by {
                        assert(alloc_ok(&mem0, alloc0, n2 + protect_walk_splits(&mem0, p0, lv, virt_addr)));
                        assert(alloc_ok(&mem0, alloc0, (n2 + protect_walk_splits(mem, gg, lv - 1, virt_addr)) + 1));
                    }
                }
            } else {
                proof {
                    if split_seen {
                        assert(pte == mem.ptes@[pt as int]@[pte_index_spec(virt_addr, lv) as int]);
                        assert(false);
                    }
                    reveal_with_fuel(protect_walk_ok, 2);
                    assert(frame_ok(mem, *alloc, (pte.spec_paddr() / PAGE_SIZE) as int));
                }
                next = (pte.paddr() / BASE_PAGE_SIZE) as usize;
                proof {
                    let i = pte_index_spec(virt_addr, lv) as int;
                    assert(is_link(mem, pt as int, lv, i));
                    assert(protect_walk_splits(mem, pt as int, lv, virt_addr) == protect_walk_splits(mem, next as int, lv - 1, virt_addr));
                    if wf0 {
                        lemma_walk_frame_next(mem, root, NR_LEVELS as int, virt_addr, lv);
                        assert(root_walk(mem, root, virt_addr, lv - 1) == Some(next as int));
                        assert forall|f: usize| #[trigger] alloc.free_frames().count(f) < old(alloc).free_frames().count(f)
                            implies exists|l: int| lv - 1 <= l < NR_LEVELS && root_walk(mem, root, virt_addr, l) == Some(f as int) by {
                            let l = choose|l: int| lv <= l < NR_LEVELS && root_walk(mem, root, virt_addr, l) == Some(f as int);
                        }
                    }
                }
                proof {
                    let nx = next as int;
                    assert(pte.spec_paddr() == nx * PAGE_SIZE) by (nonlinear_arith)
                        requires pte.spec_paddr() % 4096 == 0, nx == pte.spec_paddr() / 4096;
                    assert(path_links(mem, path.push(pt as int), nx, virt_addr)) by {
                        assert forall|j: int| 0 <= j < path.push(pt as int).len() implies #[trigger] link_ok(mem, path.push(pt as int), nx, virt_addr, j) by {
                            if j < path.len() {
                                assert(link_ok(mem, path, pt as int, virt_addr, j));
                            }
                        }
                    }
                    let n = mem.ptes@.len();
                    let p0 = pt as int;
                    assert(p0 * 4096 <= u64::MAX) by (nonlinear_arith)
                        requires 0 <= p0 < n, n * 4096 <= u64::MAX;
                    assert((p0 * 4096) / 4096 == p0 && (p0 * 4096) % 4096 == 0) by (nonlinear_arith)
                        requires 0 <= p0;
                    assert(mem.pte(((pt * PAGE_SIZE) as Paddr), pte_index_spec(virt_addr, lv) as int) == pte);
                    assert(mem.pte_walk((pt * PAGE_SIZE) as Paddr, lv, virt_addr) == mem.pte_walk((nx * PAGE_SIZE) as Paddr, lv - 1, virt_addr));
                    assert forall|j: int| 0 <= j < path.push(pt as int).len() implies !is_free_frame(*alloc, #[trigger] path.push(pt as int)[j]) by {
                        if j < path.len() {
                            assert(!is_free_frame(*alloc, path[j]));
                        }
                    }
                }
            }
            proof {
                path = path.push(pt as int);
            }
            pt = next;
            level = level - 1;
        }
        proof {
            lemma_page_size_values();
        }
        let index = pte_index(virt_addr, 1);
        let pte = mem.read_pte_frame(pt, index);
        if !pte.is_present() {
            proof {
                assert(false);
            }
        }
        let prop = pte.prop();
        let new_prop = op(prop);
        let ghost mem1 = *mem;
        mem.write_pte_at(pt, index, E::new_page(pte.paddr(), 1, new_prop));
        proof {
            assert(path_links(mem, path, pt as int, virt_addr)) by {
                assert forall|j: int| 0 <= j < path.len() implies #[trigger] link_ok(mem, path, pt as int, virt_addr, j) by {
                    assert(path.contains(path[j]));
                    assert(link_ok(&mem1, path, pt as int, virt_addr, j));
                    assert(mem.ptes@[path[j]] == mem1.ptes@[path[j]]);
                }
            }
            lemma_map_result(mem, path, pt as int, virt_addr, old(self).root_pt as int, pte.spec_paddr() as int, new_prop);
            assert(mem.ptes@[pt as int]@ == mem1.ptes@[pt as int]@.update(pte_index_spec(virt_addr, 1) as int, fpte(mem, pt as int, pte_index_spec(virt_addr, 1) as int)));
            if wf0 {
                lemma_leaf_write(&mem1, mem, *alloc, root, virt_addr, pt as int);
                assert forall|f: usize| #[trigger] alloc.free_frames().count(f) < old(alloc).free_frames().count(f)
                    implies exists|l: int| 1 <= l < NR_LEVELS && root_walk(mem, root, virt_addr, l) == Some(f as int) by {
                    let l = choose|l: int| 1 <= l < NR_LEVELS && root_walk(&mem1, root, virt_addr, l) == Some(f as int);
                    assert(root_walk(mem, root, virt_addr, l) == root_walk(&mem1, root, virt_addr, l));
                }
            }
            assert(protect_walk_splits(&mem1, pt as int, 1, virt_addr) == 0);
            assert forall|n: nat| alloc_ok(old(mem), *old(alloc), n + sp0) implies #[trigger] alloc_ok(mem, *alloc, n) by {
                assert(alloc_ok(&mem1, *alloc, n + protect_walk_splits(&mem1, pt as int, 1, virt_addr)));
            }
            let w = old(mem).pte_walk((old(self).root_pt * PAGE_SIZE) as Paddr, NR_LEVELS as int, virt_addr);
            if split_seen {
                let idx = pte_index_spec(virt_addr, 1) as int;
                assert(pte == mem1.ptes@[pt as int]@[idx]);
                lemma_offset_step(virt_addr, 1);
                lemma_page_size_values();
                assert(pte.spec_paddr() == huge + virt_addr as int % (page_size_spec(hl) as int) - virt_addr as int % 4096);
                assert((w->Some_0).0 == huge + page_offset(virt_addr, hl));
                assert(op.ensures(((w->Some_0).1,), new_prop));
                assert(page_mapped(mem, (old(self).root_pt * PAGE_SIZE) as Paddr, virt_addr, (w->Some_0).0 - virt_addr % PAGE_SIZE, new_prop));
                assert(exists|p: PageProperty| {
                    &&& op.ensures(((w->Some_0).1,), p)
                    &&& #[trigger] page_mapped(
                        mem,
                        (old(self).root_pt * PAGE_SIZE) as Paddr,
                        virt_addr,
                        (w->Some_0).0 - virt_addr % PAGE_SIZE,
                        p,
                    )
                });
            }
            if !split_seen {
                let n = mem.ptes@.len();
                let p0 = pt as int;
                assert(p0 * 4096 <= u64::MAX) by (nonlinear_arith)
                    requires 0 <= p0 < n, n * 4096 <= u64::MAX;
                assert((p0 * 4096) / 4096 == p0 && (p0 * 4096) % 4096 == 0) by (nonlinear_arith)
                    requires 0 <= p0;
                assert(mem1.pte(((pt * PAGE_SIZE) as Paddr), pte_index_spec(virt_addr, 1) as int) == pte);
                assert(page_offset(virt_addr, 1) == virt_addr % PAGE_SIZE);
                assert(w == Some(((pte.spec_paddr() + virt_addr % PAGE_SIZE) as Paddr, prop)));
                assert(op.ensures(((w->Some_0).1,), new_prop));
                assert(page_mapped(mem, (old(self).root_pt * PAGE_SIZE) as Paddr, virt_addr, (w->Some_0).0 - virt_addr % PAGE_SIZE, new_prop));
                assert(exists|p: PageProperty| {
                    &&& op.ensures(((w->Some_0).1,), p)
                    &&& #[trigger] page_mapped(
                        mem,
                        (old(self).root_pt * PAGE_SIZE) as Paddr,
                        virt_addr,
                        (w->Some_0).0 - virt_addr % PAGE_SIZE,
                        p,
                    )
                });
            }
        }
    }

    /// After splitting the huge page of frame `pt`, the walk continues in the
    /// new frame `g` with what it needs.
    proof fn lemma_after_split(
        &self,
        mem0: &PageTableMem<E>,
        mem: &PageTableMem<E>,
        alloc0: CountingFrameAllocator,
        alloc: CountingFrameAllocator,
        path: Seq<int>,
        pt: int,
        g: int,
        lv: int,
        va: Vaddr,
        huge_pa: int,
        prop: PageProperty,
    )
        requires
            2 <= lv <= NR_LEVELS,
            path.len() == NR_LEVELS - lv,
            path_links(mem0, path, pt, va),
            protect_walk_ok(mem0, alloc0, pt, lv, va, path),
            alloc_ok(mem0, alloc0, protect_walk_splits(mem0, pt, lv, va)),
            fpte(mem0, pt, pte_index_spec(va, lv) as int).spec_last(lv as PagingLevel),
            fpte(mem0, pt, pte_index_spec(va, lv) as int).spec_paddr() == huge_pa,
            forall|n: nat| alloc_ok(mem0, alloc0, n + 1) ==> #[trigger] alloc_ok(mem, alloc, n),
            forall|j: int| 0 <= j < path.len() ==> !is_free_frame(alloc0, #[trigger] path[j]),
            !is_free_frame(alloc, g),
            is_free_frame(alloc0, g),
            forall|f: usize| f != g ==> #[trigger] alloc.free_frames().count(f) == alloc0.free_frames().count(f),
            0 <= g < mem0.ptes@.len(),
            g != pt,
            !path.contains(g),
            mem.ptes@.len() == mem0.ptes@.len(),
            forall|j: int| 0 <= j < mem0.ptes@.len() && j != g && j != pt ==> #[trigger] mem.ptes@[j] == mem0.ptes@[j],
            mem.ptes@[pt]@ == mem0.ptes@[pt]@.update(pte_index_spec(va, lv) as int, fpte(mem, pt, pte_index_spec(va, lv) as int)),
            fpte(mem, pt, pte_index_spec(va, lv) as int).spec_present(),
            forall|l: PagingLevel| !#[trigger] fpte(mem, pt, pte_index_spec(va, lv) as int).spec_last(l),
            fpte(mem, pt, pte_index_spec(va, lv) as int).spec_paddr() == g * PAGE_SIZE,
            split_frame(mem, g, lv - 1, huge_pa, prop),
        ensures
            path_links(mem, path.push(pt), g, va),
            protect_walk_ok(mem, alloc, g, lv - 1, va, path.push(pt)),
            alloc_ok(mem, alloc, protect_walk_splits(mem, g, lv - 1, va)),
            protect_walk_splits(mem0, pt, lv, va) > 0,
    {
        lemma_page_size_values();
        assert(page_size_spec(lv) == 512 * page_size_spec(lv - 1)) by {
            reveal_with_fuel(page_size_spec, 2);
        }
        let np = path.push(pt);
        assert(frame_ok(mem0, alloc0, pt));
        assert(path_links(mem, np, g, va)) by {
            assert forall|j: int| 0 <= j < np.len() implies #[trigger] link_ok(mem, np, g, va, j) by {
                if j < path.len() {
                    assert(link_ok(mem0, path, pt, va, j));
                    assert(path.contains(path[j]));
                    assert(path[j] != g);
                    assert(mem.ptes@[path[j]] == mem0.ptes@[path[j]]);
                }
            }
        }
        let i = pte_index_spec(va, lv - 1) as int;
        let e = mem.ptes@[g]@[i];
        assert(e.spec_present());
        assert(e.spec_paddr() == huge_pa + i * page_size_spec(lv - 1));
        assert(!np.contains(g)) by {
            if np.contains(g) {
                let j = choose|j: int| 0 <= j < np.len() && np[j] == g;
                if j < path.len() {
                    assert(path.contains(g));
                }
            }
        }
        assert(huge_pa + page_size_spec(lv) <= u64::MAX + 1);
        assert(e.spec_paddr() + page_size_spec(lv - 1) <= huge_pa + page_size_spec(lv)) by (nonlinear_arith)
            requires
                e.spec_paddr() == huge_pa + i * page_size_spec(lv - 1),
                0 <= i < 512,
                page_size_spec(lv) == 512 * page_size_spec(lv - 1),
                page_size_spec(lv - 1) >= 4096;
        assert(e.spec_last((lv - 1) as PagingLevel));
        assert(protect_walk_ok(mem, alloc, g, lv - 1, va, np));
        if lv - 1 > 1 {
            assert(protect_walk_splits(mem, g, lv - 1, va) == (lv - 2) as nat);
        } else {
            assert(protect_walk_splits(mem, g, lv - 1, va) == 0);
        }
        assert(protect_walk_splits(mem0, pt, lv, va) == (lv - 1) as nat);
        assert(alloc_ok(mem, alloc, (lv - 2) as nat)) by {
            assert(alloc_ok(mem0, alloc0, ((lv - 2) + 1) as nat));
        }
    }
}

/// Entry `i` of frame `f`, in a node of `level`, points to a node of the
/// level below.
pub open spec fn is_link<E: PageTableEntryTrait>(mem: &PageTableMem<E>, f: int, level: int, i: int) -> bool {
    fpte(mem, f, i).spec_present() && !fpte(mem, f, i).spec_last(level as PagingLevel)
}

/// The frame that the link at entry `i` of frame `f` points to.
pub open spec fn link_target<E: PageTableEntryTrait>(mem: &PageTableMem<E>, f: int, i: int) -> int {
    (fpte(mem, f, i).spec_paddr() / PAGE_SIZE) as int
}

/// Entry `i` of frame `tf` is a link that the walk from the node at frame
/// `f` of `level` visits through its entries `0..hi`: one of them, or a
/// link below one of them.
pub open spec fn walk_visits<E: PageTableEntryTrait>(mem: &PageTableMem<E>, f: int, level: int, hi: int, tf: int, i: int) -> bool
    decreases level, hi,
{
    if level < 2 || hi <= 0 || hi > 512 {
        false
    } else {
        ||| walk_visits(mem, f, level, hi - 1, tf, i)
        ||| (is_link(mem, f, level, hi - 1) && (
            (tf == f && i == hi - 1) || walk_visits(mem, link_target(mem, f, hi - 1), level - 1, 512, tf, i)))
    }
}

/// Every node that the walk from frame `f` of `level` through entries
/// `0..hi` reads is a frame of `mem` with 512 entries.
pub open spec fn walk_frames_ok<E: PageTableEntryTrait>(mem: &PageTableMem<E>, f: int, level: int, hi: int) -> bool
    decreases level, hi,
{
    if level < 2 || hi <= 0 || hi > 512 {
        true
    } else {
        &&& 0 <= f < mem.ptes@.len()
        &&& mem.ptes@[f]@.len() == 512
        &&& walk_frames_ok(mem, f, level, hi - 1)
        &&& is_link(mem, f, level, hi - 1) ==> walk_frames_ok(mem, link_target(mem, f, hi - 1), level - 1, 512)
    }
}

/// `a` and `b` hold the same links: the same frames, each with the same
/// number of entries, and entries that agree in presence, address and
/// whether they map a page.
pub open spec fn same_links<E: PageTableEntryTrait>(a: &PageTableMem<E>, b: &PageTableMem<E>) -> bool {
    &&& a.ptes@.len() == b.ptes@.len()
    &&& forall|f: int| 0 <= f < a.ptes@.len() ==> (#[trigger] a.ptes@[f])@.len() == b.ptes@[f]@.len()
    &&& forall|f: int, i: int| #![trigger fpte(b, f, i)] 0 <= f < a.ptes@.len() && 0 <= i < a.ptes@[f]@.len() ==> {
        &&& fpte(b, f, i).spec_present() == fpte(a, f, i).spec_present()
        &&& fpte(b, f, i).spec_paddr() == fpte(a, f, i).spec_paddr()
        &&& forall|l: PagingLevel| #[trigger] fpte(b, f, i).spec_last(l) == fpte(a, f, i).spec_last(l)
    }
}

/// The property of a link with `PageFlags::AVAIL1` taken out, as a new
/// property for the kernel.
pub open spec fn without_avail1(p: PageProperty) -> PageProperty {
    PageProperty {
        flags: PageFlags { bits: p.flags.bits & !0b01000000u8 },
        priv_flags: crate::mm::page_prop::PrivilegedPageFlags::user_spec(),
    }
}

/// `b` is the entry `a` after the walk cleared its `AVAIL1` flag: a
/// present entry whose flags hold it gets the property without it; the
/// entry stays the same link otherwise.
pub open spec fn avail1_cleared<E: PageTableEntryTrait>(a: E, b: E) -> bool {
    &&& b.spec_present() == a.spec_present()
    &&& b.spec_paddr() == a.spec_paddr()
    &&& forall|l: PagingLevel| #[trigger] b.spec_last(l) == a.spec_last(l)
    &&& b.spec_prop() == if a.spec_present() && a.spec_prop().flags.spec_contains(PageFlags { bits: 0b01000000u8 }) {
        without_avail1(a.spec_prop())
    } else {
        a.spec_prop()
    }
}

/// The walks of memories that hold the same links visit the same entries
/// and read the same frames.
proof fn lemma_same_links_walk<E: PageTableEntryTrait>(a: &PageTableMem<E>, b: &PageTableMem<E>, f: int, level: int, hi: int, tf: int, i: int)
    requires
        same_links(a, b),
        walk_frames_ok(a, f, level, hi),
    ensures
        walk_visits(a, f, level, hi, tf, i) == walk_visits(b, f, level, hi, tf, i),
        walk_frames_ok(b, f, level, hi),
    decreases level, hi,
{
    if !(level < 2 || hi <= 0 || hi > 512) {
        lemma_same_links_walk(a, b, f, level, hi - 1, tf, i);
        assert(fpte(b, f, hi - 1).spec_present() == fpte(a, f, hi - 1).spec_present());
        assert(fpte(b, f, hi - 1).spec_last(level as PagingLevel) == fpte(a, f, hi - 1).spec_last(level as PagingLevel));
        if is_link(a, f, level, hi - 1) {
            assert(link_target(b, f, hi - 1) == link_target(a, f, hi - 1));
            lemma_same_links_walk(a, b, link_target(a, f, hi - 1), level - 1, 512, tf, i);
        }
    }
}

/// A walk visits only entries of frames that it reads, which are links.
proof fn lemma_walk_visits_link<E: PageTableEntryTrait>(mem: &PageTableMem<E>, f: int, level: int, hi: int, tf: int, i: int)
    requires
        walk_frames_ok(mem, f, level, hi),
        walk_visits(mem, f, level, hi, tf, i),
    ensures
        0 <= tf < mem.ptes@.len(),
        0 <= i < mem.ptes@[tf]@.len(),
        mem.ptes@[tf]@.len() == 512,
    decreases level, hi,
{
    if walk_visits(mem, f, level, hi - 1, tf, i) {
        lemma_walk_visits_link(mem, f, level, hi - 1, tf, i);
    } else if !(tf == f && i == hi - 1) {
        lemma_walk_visits_link(mem, link_target(mem, f, hi - 1), level - 1, 512, tf, i);
    }
}

/// Walks the node at frame `pt` of `level` depth first and clears
/// `PageFlags::AVAIL1` in every link it leaves, after the nodes below it.
fn clear_avail1_walk<E: PageTableEntryTrait>(mem: &mut PageTableMem<E>, pt: usize, level: PagingLevel)
    requires
        1 <= level <= NR_LEVELS,
        walk_frames_ok(old(mem), pt as int, level as int, 512),
    ensures
        final(mem).nodes == old(mem).nodes,
        same_links(old(mem), final(mem)),
        forall|f: int, i: int| #![trigger fpte(final(mem), f, i)] 0 <= f < old(mem).ptes@.len() && 0 <= i < old(mem).ptes@[f]@.len() ==>
            if walk_visits(old(mem), pt as int, level as int, 512, f, i) {
                avail1_cleared(fpte(old(mem), f, i), fpte(final(mem), f, i))
            } else {
                fpte(final(mem), f, i) == fpte(old(mem), f, i)
            },
    decreases level,
{
    let ghost m0 = *old(mem);
    if level < 2 {
        return;
    }
    let mut j: usize = 0;
    while j < 512
        invariant
            2 <= level <= NR_LEVELS,
            j <= 512,
            walk_frames_ok(&m0, pt as int, level as int, 512),
            mem.nodes == m0.nodes,
            same_links(&m0, mem),
            forall|f: int, i: int| #![trigger fpte(mem, f, i)] 0 <= f < m0.ptes@.len() && 0 <= i < m0.ptes@[f]@.len() ==>
                if walk_visits(&m0, pt as int, level as int, j as int, f, i) {
                    avail1_cleared(fpte(&m0, f, i), fpte(mem, f, i))
                } else {
                    fpte(mem, f, i) == fpte(&m0, f, i)
                },
        decreases 512 - j,
    {
        assert(walk_frames_ok(&m0, pt as int, level as int, j as int + 1)) by {
            lemma_frames_ok_prefix(&m0, pt as int, level as int, 512, j as int + 1);
        }
        let pte = mem.read_pte_frame(pt, j);
        assert(pte == fpte(mem, pt as int, j as int));
        if pte.is_present() && !pte.is_last(level) {
            let ghost m1 = *mem;
            proof {
                assert(is_link(&m0, pt as int, level as int, j as int));
            }
            if level > 2 {
                let ghost target = link_target(&m0, pt as int, j as int);
                proof {
                    assert(walk_frames_ok(&m0, target, level - 1, 512));
                    assert(0 <= target < m0.ptes@.len());
                }
                let nf = mem.ptes.len();
                proof {
                    assert(fpte(mem, pt as int, j as int).spec_paddr() == fpte(&m0, pt as int, j as int).spec_paddr());
                    assert((pte.spec_paddr() / PAGE_SIZE) as int == target);
                    assert(target < nf);
                }
                let child = (pte.paddr() / PAGE_SIZE) as usize;
                proof {
                    assert(child == target);
                    lemma_same_links_walk(&m0, mem, child as int, level as int - 1, 512, 0, 0);
                }
                clear_avail1_walk(mem, child, level - 1);
            }
            let ghost m2 = *mem;
            let mut p = mem.read_pte_frame(pt, j);
            let prop = p.prop();
            if prop.flags.contains(PageFlags::AVAIL1()) {
                p.set_prop(PageProperty::new(prop.flags.difference(PageFlags::AVAIL1())));
            }
            proof {
                assert(fpte(&m2, pt as int, j as int).spec_present());
                assert(avail1_cleared(fpte(&m2, pt as int, j as int), p));
            }
            mem.write_pte_at(pt, j, p);
            proof {
                assert forall|f: int, i: int| #![trigger fpte(mem, f, i)] 0 <= f < m0.ptes@.len() && 0 <= i < m0.ptes@[f]@.len() implies
                    if walk_visits(&m0, pt as int, level as int, j as int + 1, f, i) {
                        avail1_cleared(fpte(&m0, f, i), fpte(mem, f, i))
                    } else {
                        fpte(mem, f, i) == fpte(&m0, f, i)
                    } by {
                    let target = link_target(&m0, pt as int, j as int);
                    let in_child = level > 2 && walk_visits(&m0, target, level - 1, 512, f, i);
                    if level > 2 {
                        lemma_same_links_walk(&m0, &m1, target, level - 1, 512, f, i);
                    } else {
                        assert(!walk_visits(&m0, target, level - 1, 512, f, i));
                    }
                    // From `m1` to `m2`: only entries below the link change.
                    assert(if in_child {
                        avail1_cleared(fpte(&m1, f, i), fpte(&m2, f, i))
                    } else {
                        fpte(&m2, f, i) == fpte(&m1, f, i)
                    });
                    // From `m2` to the end: only entry `j` of `pt` changes.
                    if f == pt && i == j {
                        assert(fpte(mem, f, i) == p);
                    } else {
                        assert(fpte(mem, f, i) == fpte(&m2, f, i));
                    }
                    let a = walk_visits(&m0, pt as int, level as int, j as int, f, i);
                    if a && in_child {
                        lemma_avail1_cleared_trans(fpte(&m0, f, i), fpte(&m1, f, i), fpte(&m2, f, i));
                    }
                    if f == pt && i == j {
                        if a || in_child {
                            lemma_avail1_cleared_trans(fpte(&m0, f, i), fpte(&m2, f, i), fpte(mem, f, i));
                        }
                    }
                }
                assert(same_links(&m0, mem)) by {
                    assert forall|f: int, i: int| #![trigger fpte(mem, f, i)] 0 <= f < m0.ptes@.len() && 0 <= i < m0.ptes@[f]@.len() implies {
                        &&& fpte(mem, f, i).spec_present() == fpte(&m0, f, i).spec_present()
                        &&& fpte(mem, f, i).spec_paddr() == fpte(&m0, f, i).spec_paddr()
                        &&& forall|l: PagingLevel| #[trigger] fpte(mem, f, i).spec_last(l) == fpte(&m0, f, i).spec_last(l)
                    } by {
                        assert(fpte(&m2, f, i).spec_present() == fpte(&m0, f, i).spec_present());
                        if f == pt && i == j {
                            assert(fpte(mem, f, i) == p);
                        } else {
                            assert(fpte(mem, f, i) == fpte(&m2, f, i));
                        }
                    }
                }
            }
        } else {
            proof {
                assert(!is_link(&m0, pt as int, level as int, j as int));
            }
        }
        j = j + 1;
    }
}

/// Clearing twice clears once: the flag is gone after the first time.
proof fn lemma_avail1_cleared_trans<E: PageTableEntryTrait>(a: E, b: E, c: E)
    requires
        avail1_cleared(a, b),
        avail1_cleared(b, c),
    ensures
        avail1_cleared(a, c),
{
    let bits = a.spec_prop().flags.bits;
    assert((bits & !0b01000000u8) & 0b01000000u8 != 0b01000000u8) by (bit_vector);
    assert forall|l: PagingLevel| #[trigger] c.spec_last(l) == a.spec_last(l) by {
        assert(c.spec_last(l) == b.spec_last(l));
    }
}

/// The walk through entries `0..hi` reads what the walk through fewer
/// entries reads.
proof fn lemma_frames_ok_prefix<E: PageTableEntryTrait>(mem: &PageTableMem<E>, f: int, level: int, hi: int, lo: int)
    requires
        walk_frames_ok(mem, f, level, hi),
        0 < lo <= hi <= 512,
        level >= 2,
    ensures
        walk_frames_ok(mem, f, level, lo),
        is_link(mem, f, level, lo - 1) ==> walk_frames_ok(mem, link_target(mem, f, lo - 1), level - 1, 512),
        0 <= f < mem.ptes@.len(),
        mem.ptes@[f]@.len() == 512,
    decreases hi - lo,
{
    if lo < hi {
        lemma_frames_ok_prefix(mem, f, level, hi - 1, lo);
    }
}

impl<E: PageTableEntryTrait> BootPageTable<E> {
    /// Creates the boot page table from the page table that the CPU uses
    /// now, whose root is at `current_root` (read from the paging register
    /// by the caller).
    ///
    /// Walks the whole table and clears `PageFlags::AVAIL1` in every link,
    /// so that no node of the firmware's or loader's table is taken for one
    /// that the boot page table allocated.
    pub fn from_current_pt(mem: &mut PageTableMem<E>, current_root: Paddr) -> (r: Self)
        requires
            walk_frames_ok(old(mem), (current_root / PAGE_SIZE) as int, NR_LEVELS as int, 512),
        ensures
            r.root_pt == current_root / PAGE_SIZE,
            final(mem).nodes == old(mem).nodes,
            same_links(old(mem), final(mem)),
            forall|f: int, i: int| #![trigger fpte(final(mem), f, i)] 0 <= f < old(mem).ptes@.len() && 0 <= i < old(mem).ptes@[f]@.len() ==>
                if walk_visits(old(mem), r.root_pt as int, NR_LEVELS as int, 512, f, i) {
                    avail1_cleared(fpte(old(mem), f, i), fpte(final(mem), f, i))
                } else {
                    fpte(final(mem), f, i) == fpte(old(mem), f, i)
                },
    {
        let nf = mem.ptes.len();
        proof {
            lemma_frames_ok_prefix(mem, (current_root / PAGE_SIZE) as int, NR_LEVELS as int, 512, 512);
            assert((current_root / PAGE_SIZE) < nf);
        }
        let root_pt = (current_root / PAGE_SIZE) as usize;
        clear_avail1_walk(mem, root_pt, NR_LEVELS);
        BootPageTable { root_pt, _pretend_to_use: PhantomData }
    }
}

/// Frame `g` is a node of level `lg` that the walk from the node at frame
/// `f` of `level` reaches: the node itself, or one below one of its links.
pub open spec fn reaches<E: PageTableEntryTrait>(mem: &PageTableMem<E>, f: int, level: int, g: int, lg: int) -> bool
    decreases level, 513int,
{
    (g == f && lg == level) || reaches_below(mem, f, level, 512, g, lg)
}

/// Frame `g` is a node of level `lg` below one of the links `0..hi` of the
/// node at frame `f` of `level`.
pub open spec fn reaches_below<E: PageTableEntryTrait>(mem: &PageTableMem<E>, f: int, level: int, hi: int, g: int, lg: int) -> bool
    decreases level, hi,
{
    if level <= 2 || hi <= 0 || hi > 512 {
        false
    } else {
        ||| reaches_below(mem, f, level, hi - 1, g, lg)
        ||| (is_link(mem, f, level, hi - 1) && reaches(mem, link_target(mem, f, hi - 1), level - 1, g, lg))
    }
}

/// The walk from the root at frame `root` reaches no frame as a node of two
/// levels: the nodes may be shared, as in a DAG, each at its own level.
pub open spec fn levels_unique<E: PageTableEntryTrait>(mem: &PageTableMem<E>, root: int) -> bool {
    forall|g: int, l1: int, l2: int|
        #![trigger reaches(mem, root, NR_LEVELS as int, g, l1), reaches(mem, root, NR_LEVELS as int, g, l2)]
        reaches(mem, root, NR_LEVELS as int, g, l1) && reaches(mem, root, NR_LEVELS as int, g, l2) ==> l1 == l2
}

/// Entry `i` of frame `f` is a link of a node that the walk from the root
/// at frame `root` reaches.
pub open spec fn walked_link<E: PageTableEntryTrait>(mem: &PageTableMem<E>, root: int, f: int, i: int) -> bool {
    exists|lf: int| #[trigger] reaches(mem, root, NR_LEVELS as int, f, lf) && 0 <= i < 512 && is_link(mem, f, lf, i)
}

/// The entry carries `PageFlags::AVAIL1`, the mark of a node that the boot
/// page table allocated.
pub open spec fn marked_avail1<E: PageTableEntryTrait>(e: E) -> bool {
    e.spec_prop().flags.spec_contains(PageFlags { bits: 0b01000000u8 })
}

/// The frames that the walked links marked with `AVAIL1` point to: the
/// nodes that the boot page table allocated.
pub open spec fn allocated_nodes<E: PageTableEntryTrait>(mem: &PageTableMem<E>, root: int) -> Set<int> {
    Set::new(|t: int| exists|f: int, i: int| #[trigger] walked_link(mem, root, f, i) && marked_avail1(fpte(mem, f, i))
        && t == link_target(mem, f, i))
}

/// The frames of `allocated_nodes(m0, root)` whose links `m` no longer holds.
pub open spec fn released_nodes<E: PageTableEntryTrait>(m0: &PageTableMem<E>, m: &PageTableMem<E>, root: int) -> Set<int> {
    Set::new(|t: int| exists|f: int, i: int| #[trigger] walked_link(m0, root, f, i) && marked_avail1(fpte(m0, f, i))
        && !fpte(m, f, i).spec_present() && t == link_target(m0, f, i))
}

/// The node at frame `f` of `level` holds no links of `m0` in `m`: they are
/// absent, and its other entries are those of `m0`.
pub open spec fn links_cleared<E: PageTableEntryTrait>(m: &PageTableMem<E>, m0: &PageTableMem<E>, f: int, level: int) -> bool {
    &&& m.ptes@[f]@.len() == m0.ptes@[f]@.len()
    &&& forall|i: int| #![trigger fpte(m, f, i)] 0 <= i < m0.ptes@[f]@.len() ==>
        if is_link(m0, f, level, i) { !fpte(m, f, i).spec_present() } else { fpte(m, f, i) == fpte(m0, f, i) }
}

/// The node at frame `f` of `level`, and every node below its links in
/// `m0`, hold no links in `m`.
pub open spec fn released_below<E: PageTableEntryTrait>(m: &PageTableMem<E>, m0: &PageTableMem<E>, f: int, level: int) -> bool
    decreases level, 513int,
{
    level < 2 || (links_cleared(m, m0, f, level) && released_kids(m, m0, f, level, 512))
}

/// The nodes below the links `0..hi` of the node at frame `f` of `level`
/// in `m0` are released in `m`.
pub open spec fn released_kids<E: PageTableEntryTrait>(m: &PageTableMem<E>, m0: &PageTableMem<E>, f: int, level: int, hi: int) -> bool
    decreases level, hi,
{
    if level <= 2 || hi <= 0 || hi > 512 {
        true
    } else {
        &&& released_kids(m, m0, f, level, hi - 1)
        &&& is_link(m0, f, level, hi - 1) ==> released_below(m, m0, link_target(m0, f, hi - 1), level - 1)
    }
}

/// The node at frame `f` is as in `m0`.
pub open spec fn untouched<E: PageTableEntryTrait>(m: &PageTableMem<E>, m0: &PageTableMem<E>, f: int) -> bool {
    m.ptes@[f]@ == m0.ptes@[f]@
}

/// Every node from frame `f` of `level` down is either as in `m0` or
/// released with all the nodes below it.
pub open spec fn settled<E: PageTableEntryTrait>(m: &PageTableMem<E>, m0: &PageTableMem<E>, f: int, level: int) -> bool
    decreases level, 513int,
{
    ||| level < 2
    ||| released_below(m, m0, f, level)
    ||| (untouched(m, m0, f) && settled_kids(m, m0, f, level, 512))
}

/// The nodes below the links `0..hi` of the node at frame `f` of `level`
/// in `m0` are settled in `m`.
pub open spec fn settled_kids<E: PageTableEntryTrait>(m: &PageTableMem<E>, m0: &PageTableMem<E>, f: int, level: int, hi: int) -> bool
    decreases level, hi,
{
    if level <= 2 || hi <= 0 || hi > 512 {
        true
    } else {
        &&& settled_kids(m, m0, f, level, hi - 1)
        &&& is_link(m0, f, level, hi - 1) ==> settled(m, m0, link_target(m0, f, hi - 1), level - 1)
    }
}

/// The node below a link of a released node is released.
proof fn lemma_released_kid<E: PageTableEntryTrait>(m: &PageTableMem<E>, m0: &PageTableMem<E>, f: int, level: int, hi: int, i: int)
    requires
        released_kids(m, m0, f, level, hi),
        level > 2,
        0 <= i < hi <= 512,
        is_link(m0, f, level, i),
    ensures
        released_below(m, m0, link_target(m0, f, i), level - 1),
    decreases hi,
{
    if i < hi - 1 {
        lemma_released_kid(m, m0, f, level, hi - 1, i);
    }
}

/// The nodes below the links `0..hi` are released when the node below
/// each of them is.
proof fn lemma_released_kids<E: PageTableEntryTrait>(m: &PageTableMem<E>, m0: &PageTableMem<E>, f: int, level: int, hi: int)
    requires
        0 <= hi <= 512,
        forall|i: int| 0 <= i < hi && is_link(m0, f, level, i) && level > 2
            ==> #[trigger] released_below(m, m0, link_target(m0, f, i), level - 1),
    ensures
        released_kids(m, m0, f, level, hi),
    decreases hi,
{
    if hi > 0 {
        lemma_released_kids(m, m0, f, level, hi - 1);
        if level > 2 && is_link(m0, f, level, hi - 1) {
            assert(released_below(m, m0, link_target(m0, f, hi - 1), level - 1));
        }
    }
}

/// The node below a link of a settled node is settled.
proof fn lemma_settled_kid<E: PageTableEntryTrait>(m: &PageTableMem<E>, m0: &PageTableMem<E>, f: int, level: int, hi: int, i: int)
    requires
        settled_kids(m, m0, f, level, hi),
        level > 2,
        0 <= i < hi <= 512,
        is_link(m0, f, level, i),
    ensures
        settled(m, m0, link_target(m0, f, i), level - 1),
    decreases hi,
{
    if i < hi - 1 {
        lemma_settled_kid(m, m0, f, level, hi - 1, i);
    }
}

/// The nodes below the links `0..hi` are settled when the node below each
/// of them is.
proof fn lemma_settled_kids<E: PageTableEntryTrait>(m: &PageTableMem<E>, m0: &PageTableMem<E>, f: int, level: int, hi: int)
    requires
        0 <= hi <= 512,
        forall|i: int| 0 <= i < hi && is_link(m0, f, level, i) && level > 2
            ==> #[trigger] settled(m, m0, link_target(m0, f, i), level - 1),
    ensures
        settled_kids(m, m0, f, level, hi),
    decreases hi,
{
    if hi > 0 {
        lemma_settled_kids(m, m0, f, level, hi - 1);
        if level > 2 && is_link(m0, f, level, hi - 1) {
            assert(settled(m, m0, link_target(m0, f, hi - 1), level - 1));
        }
    }
}

/// What a link leads to is below the links up to it.
proof fn lemma_below_intro<E: PageTableEntryTrait>(mem: &PageTableMem<E>, f: int, level: int, hi: int, i: int, g: int, lg: int)
    requires
        level > 2,
        0 <= i < hi <= 512,
        is_link(mem, f, level, i),
        reaches(mem, link_target(mem, f, i), level - 1, g, lg),
    ensures
        reaches_below(mem, f, level, hi, g, lg),
    decreases hi,
{
    if i < hi - 1 {
        lemma_below_intro(mem, f, level, hi - 1, i, g, lg);
    }
}

/// What is below the links `0..hi` is below one of them.
proof fn lemma_below_elim<E: PageTableEntryTrait>(mem: &PageTableMem<E>, f: int, level: int, hi: int, g: int, lg: int) -> (i: int)
    requires
        reaches_below(mem, f, level, hi, g, lg),
    ensures
        level > 2,
        0 <= i < hi <= 512,
        is_link(mem, f, level, i),
        reaches(mem, link_target(mem, f, i), level - 1, g, lg),
    decreases hi,
{
    if reaches_below(mem, f, level, hi - 1, g, lg) {
        lemma_below_elim(mem, f, level, hi - 1, g, lg)
    } else {
        hi - 1
    }
}

/// A link leads to a node one level down.
proof fn lemma_reaches_link<E: PageTableEntryTrait>(mem: &PageTableMem<E>, f: int, level: int, i: int)
    requires
        level > 2,
        0 <= i < 512,
        is_link(mem, f, level, i),
    ensures
        reaches(mem, f, level, link_target(mem, f, i), level - 1),
{
    let t = link_target(mem, f, i);
    assert(reaches(mem, t, level - 1, t, level - 1));
    lemma_below_intro(mem, f, level, 512, i, t, level - 1);
}

/// What a node reaches, the nodes that reach it reach too.
proof fn lemma_reaches_trans<E: PageTableEntryTrait>(mem: &PageTableMem<E>, a: int, la: int, b: int, lb: int, c: int, lc: int)
    requires
        reaches(mem, a, la, b, lb),
        reaches(mem, b, lb, c, lc),
    ensures
        reaches(mem, a, la, c, lc),
    decreases la,
{
    if !(b == a && lb == la) {
        let i = lemma_below_elim(mem, a, la, 512, b, lb);
        lemma_reaches_trans(mem, link_target(mem, a, i), la - 1, b, lb, c, lc);
        lemma_below_intro(mem, a, la, 512, i, c, lc);
    }
}

/// The walk goes down: what a node of level at least 2 reaches is a node
/// of a level from 2 to its own.
proof fn lemma_reaches_level<E: PageTableEntryTrait>(mem: &PageTableMem<E>, a: int, la: int, b: int, lb: int)
    requires
        reaches(mem, a, la, b, lb),
        la >= 2,
    ensures
        2 <= lb <= la,
    decreases la,
{
    if !(b == a && lb == la) {
        let i = lemma_below_elim(mem, a, la, 512, b, lb);
        lemma_reaches_level(mem, link_target(mem, a, i), la - 1, b, lb);
    }
}

/// Every node below a released node is released.
proof fn lemma_released_reach<E: PageTableEntryTrait>(m: &PageTableMem<E>, m0: &PageTableMem<E>, f: int, level: int, g: int, lg: int)
    requires
        released_below(m, m0, f, level),
        reaches(m0, f, level, g, lg),
    ensures
        released_below(m, m0, g, lg),
    decreases level,
{
    if !(g == f && lg == level) {
        let i = lemma_below_elim(m0, f, level, 512, g, lg);
        lemma_released_kid(m, m0, f, level, 512, i);
        lemma_released_reach(m, m0, link_target(m0, f, i), level - 1, g, lg);
    }
}

/// The walk from a root whose walk reads valid frames reads valid frames
/// from every node it reaches.
proof fn lemma_reach_frames_ok<E: PageTableEntryTrait>(mem: &PageTableMem<E>, a: int, la: int, b: int, lb: int)
    requires
        walk_frames_ok(mem, a, la, 512),
        reaches(mem, a, la, b, lb),
        la >= 2,
    ensures
        walk_frames_ok(mem, b, lb, 512),
        0 <= b < mem.ptes@.len(),
        mem.ptes@[b]@.len() == 512,
        2 <= lb <= la,
    decreases la,
{
    lemma_reaches_level(mem, a, la, b, lb);
    if !(b == a && lb == la) {
        let i = lemma_below_elim(mem, a, la, 512, b, lb);
        lemma_frames_ok_prefix(mem, a, la, 512, i + 1);
        lemma_reach_frames_ok(mem, link_target(mem, a, i), la - 1, b, lb);
    } else {
        lemma_frames_ok_prefix(mem, a, la, 512, 512);
    }
}

/// The nodes that `m0` reaches from the root at frame `root` are valid
/// frames, each reached at one level.
pub open spec fn release_shape<E: PageTableEntryTrait>(m0: &PageTableMem<E>, root: int) -> bool {
    &&& walk_frames_ok(m0, root, NR_LEVELS as int, 512)
    &&& levels_unique(m0, root)
}

/// Released nodes stay released through the changes of releasing the
/// nodes from frame `c` of `lc` down, which change only nodes below it.
proof fn lemma_released_kept<E: PageTableEntryTrait>(
    m0: &PageTableMem<E>, root: int, m1: &PageTableMem<E>, m2: &PageTableMem<E>, c: int, lc: int, f: int, l: int,
)
    requires
        release_shape(m0, root),
        reaches(m0, root, NR_LEVELS as int, f, l),
        reaches(m0, root, NR_LEVELS as int, c, lc),
        released_below(m1, m0, f, l),
        released_below(m2, m0, c, lc),
        m1.ptes@.len() == m0.ptes@.len(),
        m2.ptes@.len() == m1.ptes@.len(),
        forall|g: int| 0 <= g < m1.ptes@.len() && #[trigger] m2.ptes@[g]@ != m1.ptes@[g]@
            ==> exists|lg: int| #[trigger] reaches(m0, c, lc, g, lg),
    ensures
        released_below(m2, m0, f, l),
    decreases l,
{
    lemma_reach_frames_ok(m0, root, NR_LEVELS as int, f, l);
    if m2.ptes@[f]@ != m1.ptes@[f]@ {
        let lg = choose|lg: int| #[trigger] reaches(m0, c, lc, f, lg);
        lemma_reaches_trans(m0, root, NR_LEVELS as int, c, lc, f, lg);
        lemma_released_reach(m2, m0, c, lc, f, lg);
    } else {
        assert(links_cleared(m2, m0, f, l)) by {
            assert forall|i: int| 0 <= i < m0.ptes@[f]@.len() implies fpte(m2, f, i) == fpte(m1, f, i) by {}
        }
        assert forall|i: int| 0 <= i < 512 && is_link(m0, f, l, i) && l > 2
            implies #[trigger] released_below(m2, m0, link_target(m0, f, i), l - 1) by {
            lemma_released_kid(m1, m0, f, l, 512, i);
            lemma_reaches_link(m0, f, l, i);
            lemma_reaches_trans(m0, root, NR_LEVELS as int, f, l, link_target(m0, f, i), l - 1);
            lemma_released_kept(m0, root, m1, m2, c, lc, link_target(m0, f, i), l - 1);
        }
        lemma_released_kids(m2, m0, f, l, 512);
    }
}

/// Released nodes stay released through a change of the node at frame `x`
/// of a higher level.
proof fn lemma_released_kept_above<E: PageTableEntryTrait>(
    m0: &PageTableMem<E>, root: int, m1: &PageTableMem<E>, m2: &PageTableMem<E>, x: int, lx: int, f: int, l: int,
)
    requires
        release_shape(m0, root),
        reaches(m0, root, NR_LEVELS as int, f, l),
        reaches(m0, root, NR_LEVELS as int, x, lx),
        l < lx,
        released_below(m1, m0, f, l),
        m1.ptes@.len() == m0.ptes@.len(),
        m2.ptes@.len() == m1.ptes@.len(),
        forall|g: int| 0 <= g < m1.ptes@.len() && #[trigger] m2.ptes@[g]@ != m1.ptes@[g]@ ==> g == x,
    ensures
        released_below(m2, m0, f, l),
    decreases l,
{
    lemma_reach_frames_ok(m0, root, NR_LEVELS as int, f, l);
    assert(m2.ptes@[f]@ == m1.ptes@[f]@);
    assert(links_cleared(m2, m0, f, l)) by {
        assert forall|i: int| 0 <= i < m0.ptes@[f]@.len() implies fpte(m2, f, i) == fpte(m1, f, i) by {}
    }
    assert forall|i: int| 0 <= i < 512 && is_link(m0, f, l, i) && l > 2
        implies #[trigger] released_below(m2, m0, link_target(m0, f, i), l - 1) by {
        lemma_released_kid(m1, m0, f, l, 512, i);
        lemma_reaches_link(m0, f, l, i);
        lemma_reaches_trans(m0, root, NR_LEVELS as int, f, l, link_target(m0, f, i), l - 1);
        lemma_released_kept_above(m0, root, m1, m2, x, lx, link_target(m0, f, i), l - 1);
    }
    lemma_released_kids(m2, m0, f, l, 512);
}

/// Settled nodes stay settled through the changes of releasing the nodes
/// from frame `c` of `lc` down.
proof fn lemma_settled_kept<E: PageTableEntryTrait>(
    m0: &PageTableMem<E>, root: int, m1: &PageTableMem<E>, m2: &PageTableMem<E>, c: int, lc: int, f: int, l: int,
)
    requires
        release_shape(m0, root),
        reaches(m0, root, NR_LEVELS as int, f, l),
        reaches(m0, root, NR_LEVELS as int, c, lc),
        settled(m1, m0, f, l),
        released_below(m2, m0, c, lc),
        m1.ptes@.len() == m0.ptes@.len(),
        m2.ptes@.len() == m1.ptes@.len(),
        forall|g: int| 0 <= g < m1.ptes@.len() && #[trigger] m2.ptes@[g]@ != m1.ptes@[g]@
            ==> exists|lg: int| #[trigger] reaches(m0, c, lc, g, lg),
    ensures
        settled(m2, m0, f, l),
    decreases l,
{
    lemma_reach_frames_ok(m0, root, NR_LEVELS as int, f, l);
    if released_below(m1, m0, f, l) {
        lemma_released_kept(m0, root, m1, m2, c, lc, f, l);
    } else if m2.ptes@[f]@ != m1.ptes@[f]@ {
        let lg = choose|lg: int| #[trigger] reaches(m0, c, lc, f, lg);
        lemma_reaches_trans(m0, root, NR_LEVELS as int, c, lc, f, lg);
        lemma_released_reach(m2, m0, c, lc, f, lg);
    } else {
        assert forall|i: int| 0 <= i < 512 && is_link(m0, f, l, i) && l > 2
            implies #[trigger] settled(m2, m0, link_target(m0, f, i), l - 1) by {
            lemma_settled_kid(m1, m0, f, l, 512, i);
            lemma_reaches_link(m0, f, l, i);
            lemma_reaches_trans(m0, root, NR_LEVELS as int, f, l, link_target(m0, f, i), l - 1);
            lemma_settled_kept(m0, root, m1, m2, c, lc, link_target(m0, f, i), l - 1);
        }
        lemma_settled_kids(m2, m0, f, l, 512);
    }
}

/// Settled nodes stay settled through a change of the node at frame `x`
/// of a higher level.
proof fn lemma_settled_kept_above<E: PageTableEntryTrait>(
    m0: &PageTableMem<E>, root: int, m1: &PageTableMem<E>, m2: &PageTableMem<E>, x: int, lx: int, f: int, l: int,
)
    requires
        release_shape(m0, root),
        reaches(m0, root, NR_LEVELS as int, f, l),
        reaches(m0, root, NR_LEVELS as int, x, lx),
        l < lx,
        settled(m1, m0, f, l),
        m1.ptes@.len() == m0.ptes@.len(),
        m2.ptes@.len() == m1.ptes@.len(),
        forall|g: int| 0 <= g < m1.ptes@.len() && #[trigger] m2.ptes@[g]@ != m1.ptes@[g]@ ==> g == x,
    ensures
        settled(m2, m0, f, l),
    decreases l,
{
    lemma_reach_frames_ok(m0, root, NR_LEVELS as int, f, l);
    if released_below(m1, m0, f, l) {
        lemma_released_kept_above(m0, root, m1, m2, x, lx, f, l);
    } else {
        assert(m2.ptes@[f]@ == m1.ptes@[f]@);
        assert forall|i: int| 0 <= i < 512 && is_link(m0, f, l, i) && l > 2
            implies #[trigger] settled(m2, m0, link_target(m0, f, i), l - 1) by {
            lemma_settled_kid(m1, m0, f, l, 512, i);
            lemma_reaches_link(m0, f, l, i);
            lemma_reaches_trans(m0, root, NR_LEVELS as int, f, l, link_target(m0, f, i), l - 1);
            lemma_settled_kept_above(m0, root, m1, m2, x, lx, link_target(m0, f, i), l - 1);
        }
        lemma_settled_kids(m2, m0, f, l, 512);
    }
}

/// What releasing the boot page table whose root is at frame `root` of
/// `m0` asks of the frame allocator: the nodes it allocated are distinct
/// frames of the memory, each reached through one link, none of them free,
/// and the allocator counts at least as many frames and bytes allocated.
pub open spec fn release_alloc_ok<E: PageTableEntryTrait>(m0: &PageTableMem<E>, root: int, alloc: CountingFrameAllocator) -> bool {
    let nodes = allocated_nodes(m0, root);
    &&& forall|t: int| #[trigger] nodes.contains(t) ==> 0 <= t < m0.ptes@.len() && alloc.free_frames().count(t as usize) == 0
    &&& forall|f: int, i: int, g: int, j: int|
        #![trigger walked_link(m0, root, f, i), walked_link(m0, root, g, j)]
        walked_link(m0, root, f, i) && marked_avail1(fpte(m0, f, i)) && walked_link(m0, root, g, j)
        && marked_avail1(fpte(m0, g, j)) && link_target(m0, f, i) == link_target(m0, g, j) ==> f == g && i == j
    &&& nodes.len() <= alloc.frame_counters().0
    &&& nodes.len() * PAGE_SIZE_BYTES <= alloc.allocated_spec()
}

/// The allocator `a` is `a0` with the nodes of `released_nodes(m0, m, root)`
/// given back.
pub open spec fn release_accounted<E: PageTableEntryTrait>(
    m0: &PageTableMem<E>, root: int, m: &PageTableMem<E>, a0: CountingFrameAllocator, a: CountingFrameAllocator,
) -> bool {
    let fr = released_nodes(m0, m, root);
    &&& forall|g: usize| #[trigger] a.free_frames().count(g) == a0.free_frames().count(g) + if fr.contains(g as int) {
        1nat
    } else {
        0nat
    }
    &&& a.frame_counters() == ((a0.frame_counters().0 - fr.len()) as nat, a0.frame_counters().1)
    &&& a.allocated_spec() == a0.allocated_spec() - fr.len() * PAGE_SIZE_BYTES
    &&& a.total_spec() == a0.total_spec()
}

/// The allocated nodes are finitely many, and so are the released ones.
proof fn lemma_nodes_finite<E: PageTableEntryTrait>(m0: &PageTableMem<E>, m: &PageTableMem<E>, root: int, alloc: CountingFrameAllocator)
    requires
        release_alloc_ok(m0, root, alloc),
    ensures
        allocated_nodes(m0, root).finite(),
        released_nodes(m0, m, root).finite(),
        released_nodes(m0, m, root).subset_of(allocated_nodes(m0, root)),
        released_nodes(m0, m, root).len() <= allocated_nodes(m0, root).len(),
{
    let nodes = allocated_nodes(m0, root);
    vstd::set_lib::lemma_int_range(0, m0.ptes@.len() as int);
    assert(nodes.subset_of(vstd::set_lib::set_int_range(0, m0.ptes@.len() as int)));
    vstd::set_lib::lemma_len_subset(nodes, vstd::set_lib::set_int_range(0, m0.ptes@.len() as int));
    let fr = released_nodes(m0, m, root);
    assert forall|t: int| fr.contains(t) implies nodes.contains(t) by {
        let (f, i) = choose|f: int, i: int| #[trigger] walked_link(m0, root, f, i) && marked_avail1(fpte(m0, f, i))
            && !fpte(m, f, i).spec_present() && t == link_target(m0, f, i);
        assert(walked_link(m0, root, f, i) && marked_avail1(fpte(m0, f, i)) && t == link_target(m0, f, i));
    }
    vstd::set_lib::lemma_len_subset(fr, nodes);
}

/// The target of a walked link marked with `AVAIL1` that `m` still holds
/// is an allocated node not released yet.
proof fn lemma_release_fresh<E: PageTableEntryTrait>(
    m0: &PageTableMem<E>, root: int, m: &PageTableMem<E>, alloc: CountingFrameAllocator, pt: int, level: int, j: int,
)
    requires
        release_alloc_ok(m0, root, alloc),
        reaches(m0, root, NR_LEVELS as int, pt, level),
        0 <= j < 512,
        is_link(m0, pt, level, j),
        marked_avail1(fpte(m0, pt, j)),
        fpte(m, pt, j) == fpte(m0, pt, j),
    ensures
        allocated_nodes(m0, root).contains(link_target(m0, pt, j)),
        !released_nodes(m0, m, root).contains(link_target(m0, pt, j)),
{
    let t = link_target(m0, pt, j);
    assert(walked_link(m0, root, pt, j));
    assert(allocated_nodes(m0, root).contains(t));
    if released_nodes(m0, m, root).contains(t) {
        let (f, i) = choose|f: int, i: int| #[trigger] walked_link(m0, root, f, i) && marked_avail1(fpte(m0, f, i))
            && !fpte(m, f, i).spec_present() && t == link_target(m0, f, i);
        assert(f == pt && i == j);
    }
}

/// Taking out the walked link at entry `j` of the node at frame `pt` of
/// `level` releases its target when it is marked with `AVAIL1`, a node not
/// released before.
proof fn lemma_release_step<E: PageTableEntryTrait>(
    m0: &PageTableMem<E>, root: int, m1: &PageTableMem<E>, m2: &PageTableMem<E>, alloc: CountingFrameAllocator,
    pt: int, level: int, j: int,
)
    requires
        release_shape(m0, root),
        release_alloc_ok(m0, root, alloc),
        reaches(m0, root, NR_LEVELS as int, pt, level),
        0 <= j < 512,
        is_link(m0, pt, level, j),
        fpte(m1, pt, j) == fpte(m0, pt, j),
        m1.ptes@.len() == m0.ptes@.len(),
        m2.ptes@.len() == m1.ptes@.len(),
        forall|g: int| 0 <= g < m1.ptes@.len() && g != pt ==> #[trigger] m2.ptes@[g] == m1.ptes@[g],
        m1.ptes@[pt]@.len() == 512,
        m2.ptes@[pt]@ == m1.ptes@[pt]@.update(j, fpte(m2, pt, j)),
        !fpte(m2, pt, j).spec_present(),
    ensures
        ({
            let t = link_target(m0, pt, j);
            let r1 = released_nodes(m0, m1, root);
            let r2 = released_nodes(m0, m2, root);
            &&& marked_avail1(fpte(m0, pt, j)) ==> allocated_nodes(m0, root).contains(t) && !r1.contains(t) && r2 == r1.insert(t)
            &&& !marked_avail1(fpte(m0, pt, j)) ==> r2 == r1
        }),
{
    let t = link_target(m0, pt, j);
    let r1 = released_nodes(m0, m1, root);
    let r2 = released_nodes(m0, m2, root);
    assert(walked_link(m0, root, pt, j));
    assert forall|f: int, i: int| walked_link(m0, root, f, i) && !(f == pt && i == j)
        implies #[trigger] fpte(m2, f, i) == fpte(m1, f, i) by {
        let lf = choose|lf: int| #[trigger] reaches(m0, root, NR_LEVELS as int, f, lf) && 0 <= i < 512 && is_link(m0, f, lf, i);
        lemma_reach_frames_ok(m0, root, NR_LEVELS as int, f, lf);
        if f != pt {
            assert(m2.ptes@[f] == m1.ptes@[f]);
        }
    }
    if marked_avail1(fpte(m0, pt, j)) {
        assert(allocated_nodes(m0, root).contains(t));
        if r1.contains(t) {
            let (f, i) = choose|f: int, i: int| #[trigger] walked_link(m0, root, f, i) && marked_avail1(fpte(m0, f, i))
                && !fpte(m1, f, i).spec_present() && t == link_target(m0, f, i);
            assert(f == pt && i == j);
        }
        assert forall|u: int| r2.contains(u) <==> r1.insert(t).contains(u) by {
            if r2.contains(u) {
                let (f, i) = choose|f: int, i: int| #[trigger] walked_link(m0, root, f, i) && marked_avail1(fpte(m0, f, i))
                    && !fpte(m2, f, i).spec_present() && u == link_target(m0, f, i);
                if !(f == pt && i == j) {
                    assert(r1.contains(u));
                }
            }
            if r1.contains(u) {
                let (f, i) = choose|f: int, i: int| #[trigger] walked_link(m0, root, f, i) && marked_avail1(fpte(m0, f, i))
                    && !fpte(m1, f, i).spec_present() && u == link_target(m0, f, i);
                assert(!(f == pt && i == j));
                assert(r2.contains(u));
            }
            if u == t {
                assert(r2.contains(u));
            }
        }
        assert(r2 =~= r1.insert(t));
    } else {
        assert forall|u: int| r2.contains(u) <==> r1.contains(u) by {
            if r2.contains(u) {
                let (f, i) = choose|f: int, i: int| #[trigger] walked_link(m0, root, f, i) && marked_avail1(fpte(m0, f, i))
                    && !fpte(m2, f, i).spec_present() && u == link_target(m0, f, i);
                assert(!(f == pt && i == j));
                assert(r1.contains(u));
            }
            if r1.contains(u) {
                let (f, i) = choose|f: int, i: int| #[trigger] walked_link(m0, root, f, i) && marked_avail1(fpte(m0, f, i))
                    && !fpte(m1, f, i).spec_present() && u == link_target(m0, f, i);
                assert(!(f == pt && i == j));
                assert(r2.contains(u));
            }
        }
        assert(r2 =~= r1);
    }
}

/// Walks the node at frame `pt` of `level` depth first and takes out every
/// link it leaves, after the nodes below it: a link marked with `AVAIL1`
/// gives its node back to the allocator first. A node met again through
/// another link then holds no links, so nothing is given back twice.
fn release_walk<E: PageTableEntryTrait>(
    mem: &mut PageTableMem<E>,
    alloc: &mut CountingFrameAllocator,
    pt: usize,
    level: PagingLevel,
    Ghost(m0): Ghost<PageTableMem<E>>,
    Ghost(root): Ghost<int>,
    Ghost(a0): Ghost<CountingFrameAllocator>,
)
    requires
        2 <= level <= NR_LEVELS,
        release_shape(&m0, root),
        release_alloc_ok(&m0, root, a0),
        reaches(&m0, root, NR_LEVELS as int, pt as int, level as int),
        old(mem).ptes@.len() == m0.ptes@.len(),
        forall|g: int| 0 <= g < m0.ptes@.len() ==> (#[trigger] old(mem).ptes@[g])@.len() == m0.ptes@[g]@.len(),
        settled(old(mem), &m0, pt as int, level as int),
        release_accounted(&m0, root, old(mem), a0, *old(alloc)),
    ensures
        final(mem).nodes == old(mem).nodes,
        final(mem).ptes@.len() == m0.ptes@.len(),
        forall|g: int| 0 <= g < m0.ptes@.len() ==> (#[trigger] final(mem).ptes@[g])@.len() == m0.ptes@[g]@.len(),
        released_below(final(mem), &m0, pt as int, level as int),
        forall|g: int| 0 <= g < m0.ptes@.len() && #[trigger] final(mem).ptes@[g]@ != old(mem).ptes@[g]@
            ==> exists|lg: int| #[trigger] reaches(&m0, pt as int, level as int, g, lg),
        release_accounted(&m0, root, final(mem), a0, *final(alloc)),
    decreases level,
{
    let ghost ms = *mem;
    let ghost p = pt as int;
    let ghost l = level as int;
    proof {
        lemma_reach_frames_ok(&m0, root, NR_LEVELS as int, p, l);
        lemma_nodes_finite(&m0, mem, root, a0);
        if l > 2 {
            assert forall|i: int| 0 <= i < 512 && is_link(&m0, p, l, i)
                implies #[trigger] settled(mem, &m0, link_target(&m0, p, i), l - 1) by {
                if released_below(mem, &m0, p, l) {
                    lemma_released_kid(mem, &m0, p, l, 512, i);
                } else {
                    lemma_settled_kid(mem, &m0, p, l, 512, i);
                }
            }
            assert forall|i: int| 0 <= i < 512 && is_link(&m0, p, l, i) && released_below(&ms, &m0, p, l)
                implies #[trigger] released_below(mem, &m0, link_target(&m0, p, i), l - 1) by {
                lemma_released_kid(mem, &m0, p, l, 512, i);
            }
        }
    }
    let mut j: usize = 0;
    while j < 512
        invariant
            2 <= level <= NR_LEVELS,
            p == pt as int,
            l == level as int,
            release_shape(&m0, root),
            release_alloc_ok(&m0, root, a0),
            reaches(&m0, root, NR_LEVELS as int, p, l),
            walk_frames_ok(&m0, p, l, 512),
            0 <= p < m0.ptes@.len(),
            m0.ptes@[p]@.len() == 512,
            j <= 512,
            mem.nodes == ms.nodes,
            ms.ptes@.len() == m0.ptes@.len(),
            mem.ptes@.len() == m0.ptes@.len(),
            forall|g: int| 0 <= g < m0.ptes@.len() ==> (#[trigger] mem.ptes@[g])@.len() == m0.ptes@[g]@.len(),
            settled(&ms, &m0, p, l),
            forall|i: int| #![trigger fpte(mem, p, i)] 0 <= i < j ==>
                if is_link(&m0, p, l, i) { !fpte(mem, p, i).spec_present() } else { fpte(mem, p, i) == fpte(&m0, p, i) },
            forall|i: int| #![trigger fpte(mem, p, i)] j <= i < 512 ==> fpte(mem, p, i) == fpte(&ms, p, i),
            l > 2 ==> forall|i: int| 0 <= i < j && is_link(&m0, p, l, i)
                ==> #[trigger] released_below(mem, &m0, link_target(&m0, p, i), l - 1),
            l > 2 ==> forall|i: int| j <= i < 512 && is_link(&m0, p, l, i)
                ==> #[trigger] settled(mem, &m0, link_target(&m0, p, i), l - 1),
            l > 2 && released_below(&ms, &m0, p, l) ==> forall|i: int| j <= i < 512 && is_link(&m0, p, l, i)
                ==> #[trigger] released_below(mem, &m0, link_target(&m0, p, i), l - 1),
            forall|g: int| 0 <= g < m0.ptes@.len() && g != p && #[trigger] mem.ptes@[g]@ != ms.ptes@[g]@
                ==> exists|lg: int| #[trigger] reaches(&m0, p, l, g, lg),
            release_accounted(&m0, root, mem, a0, *alloc),
        decreases 512 - j,
    {
        let ghost mi = *mem;
        let pte = mem.read_pte_frame(pt, j);
        assert(pte == fpte(mem, p, j as int));
        assert(pte == fpte(&ms, p, j as int));
        if pte.is_present() && !pte.is_last(level) {
            proof {
                if released_below(&ms, &m0, p, l) {
                    assert(false);
                }
                assert(untouched(&ms, &m0, p));
                assert(fpte(&ms, p, j as int) == fpte(&m0, p, j as int));
                assert(is_link(&m0, p, l, j as int));
            }
            let ghost t = link_target(&m0, p, j as int);
            if level > 2 {
                let ghost ma = *mem;
                proof {
                    lemma_reaches_link(&m0, p, l, j as int);
                    lemma_reaches_trans(&m0, root, NR_LEVELS as int, p, l, t, l - 1);
                    lemma_reach_frames_ok(&m0, root, NR_LEVELS as int, t, l - 1);
                }
                let nf = mem.ptes.len();
                let q = pte.paddr() / BASE_PAGE_SIZE;
                assert(q as int == t && t < nf);
                let child = q as usize;
                release_walk(mem, alloc, child, level - 1, Ghost(m0), Ghost(root), Ghost(a0));
                proof {
                    let mb = *mem;
                    // The node at `pt` is of a higher level than all that changed.
                    assert(mb.ptes@[p]@ == ma.ptes@[p]@) by {
                        if mb.ptes@[p]@ != ma.ptes@[p]@ {
                            let lg = choose|lg: int| #[trigger] reaches(&m0, t, l - 1, p, lg);
                            lemma_reaches_level(&m0, t, l - 1, p, lg);
                            lemma_reaches_trans(&m0, root, NR_LEVELS as int, t, l - 1, p, lg);
                        }
                    }
                    assert forall|i: int| 0 <= i < 512 && is_link(&m0, p, l, i) && i != j && (i < j || released_below(&ms, &m0, p, l))
                        implies #[trigger] released_below(&mb, &m0, link_target(&m0, p, i), l - 1) by {
                        lemma_reaches_link(&m0, p, l, i);
                        lemma_reaches_trans(&m0, root, NR_LEVELS as int, p, l, link_target(&m0, p, i), l - 1);
                        assert(released_below(&ma, &m0, link_target(&m0, p, i), l - 1));
                        lemma_released_kept(&m0, root, &ma, &mb, t, l - 1, link_target(&m0, p, i), l - 1);
                    }
                    assert forall|i: int| 0 <= i < 512 && is_link(&m0, p, l, i) && i != j
                        implies #[trigger] settled(&mb, &m0, link_target(&m0, p, i), l - 1) by {
                        lemma_reaches_link(&m0, p, l, i);
                        lemma_reaches_trans(&m0, root, NR_LEVELS as int, p, l, link_target(&m0, p, i), l - 1);
                        if i < j {
                            assert(released_below(&ma, &m0, link_target(&m0, p, i), l - 1));
                            lemma_released_kept(&m0, root, &ma, &mb, t, l - 1, link_target(&m0, p, i), l - 1);
                        } else {
                            assert(settled(&ma, &m0, link_target(&m0, p, i), l - 1));
                            lemma_settled_kept(&m0, root, &ma, &mb, t, l - 1, link_target(&m0, p, i), l - 1);
                        }
                    }
                    assert forall|g: int| 0 <= g < m0.ptes@.len() && g != p && #[trigger] mb.ptes@[g]@ != ms.ptes@[g]@
                        implies exists|lg: int| #[trigger] reaches(&m0, p, l, g, lg) by {
                        if mb.ptes@[g]@ != ma.ptes@[g]@ {
                            let lg = choose|lg: int| #[trigger] reaches(&m0, t, l - 1, g, lg);
                            lemma_reaches_trans(&m0, p, l, t, l - 1, g, lg);
                        }
                    }
                }
            }
            let ghost mc = *mem;
            proof {
                assert(mc.ptes@[p]@ == mi.ptes@[p]@);
                if l > 2 {
                    assert forall|i: int| 0 <= i < 512 && is_link(&m0, p, l, i) && (i <= j || released_below(&ms, &m0, p, l))
                        implies #[trigger] released_below(&mc, &m0, link_target(&m0, p, i), l - 1) by {
                        if i == j {
                            assert(released_below(&mc, &m0, t, l - 1));
                        } else {
                            assert(settled(&mc, &m0, link_target(&m0, p, i), l - 1));
                        }
                    }
                    assert forall|i: int| 0 <= i < 512 && is_link(&m0, p, l, i)
                        implies #[trigger] settled(&mc, &m0, link_target(&m0, p, i), l - 1) by {
                        if i == j {
                            assert(released_below(&mc, &m0, t, l - 1));
                        }
                    }
                }
            }
            let cur = mem.read_pte_frame(pt, j);
            assert(cur == fpte(&m0, p, j as int));
            proof {
                lemma_nodes_finite(&m0, mem, root, a0);
            }
            let prop = cur.prop();
            if prop.flags.contains(PageFlags::AVAIL1()) {
                proof {
                    lemma_release_fresh(&m0, root, mem, a0, p, l, j as int);
                    let r1 = released_nodes(&m0, mem, root);
                    vstd::set::axiom_set_insert_len(r1, t);
                    vstd::set::axiom_set_insert_finite(r1, t);
                    vstd::set_lib::lemma_len_subset(r1.insert(t), allocated_nodes(&m0, root));
                }
                let nf = mem.ptes.len();
                let q = cur.paddr() / BASE_PAGE_SIZE;
                assert(q as int == t && t < nf);
                let frame = q as usize;
                proof {
                    reveal_with_fuel(next_power_of_two_spec, 2);
                }
                alloc.dealloc(frame, 1);
            }
            mem.write_pte_at(pt, j, E::new_absent());
            proof {
                let md = *mem;
                lemma_release_step(&m0, root, &mc, &md, a0, p, l, j as int);
                lemma_nodes_finite(&m0, &md, root, a0);
                assert forall|g: int| 0 <= g < m0.ptes@.len() && g != p implies #[trigger] md.ptes@[g]@ == mc.ptes@[g]@ by {
                    assert(md.ptes@[g] == mc.ptes@[g]);
                }
                assert forall|i: int| 0 <= i < 512 implies #[trigger] fpte(&md, p, i) == if i == j {
                    fpte(&md, p, j as int)
                } else {
                    fpte(&mi, p, i)
                } by {}
                if l > 2 {
                    assert forall|i: int| 0 <= i < 512 && is_link(&m0, p, l, i) && (i <= j || released_below(&ms, &m0, p, l))
                        implies #[trigger] released_below(&md, &m0, link_target(&m0, p, i), l - 1) by {
                        lemma_reaches_link(&m0, p, l, i);
                        lemma_reaches_trans(&m0, root, NR_LEVELS as int, p, l, link_target(&m0, p, i), l - 1);
                        assert(released_below(&mc, &m0, link_target(&m0, p, i), l - 1));
                        lemma_released_kept_above(&m0, root, &mc, &md, p, l, link_target(&m0, p, i), l - 1);
                    }
                    assert forall|i: int| 0 <= i < 512 && is_link(&m0, p, l, i)
                        implies #[trigger] settled(&md, &m0, link_target(&m0, p, i), l - 1) by {
                        lemma_reaches_link(&m0, p, l, i);
                        lemma_reaches_trans(&m0, root, NR_LEVELS as int, p, l, link_target(&m0, p, i), l - 1);
                        assert(settled(&mc, &m0, link_target(&m0, p, i), l - 1));
                        lemma_settled_kept_above(&m0, root, &mc, &md, p, l, link_target(&m0, p, i), l - 1);
                    }
                }
            }
        } else {
            proof {
                if is_link(&m0, p, l, j as int) {
                    if !released_below(&ms, &m0, p, l) {
                        assert(fpte(&ms, p, j as int) == fpte(&m0, p, j as int));
                    }
                    if l > 2 {
                        lemma_released_kid(&ms, &m0, p, l, 512, j as int);
                    }
                }
            }
        }
        j = j + 1;
    }
    proof {
        assert(links_cleared(mem, &m0, p, l));
        assert forall|i: int| 0 <= i < 512 && is_link(&m0, p, l, i) && l > 2
            implies #[trigger] released_below(mem, &m0, link_target(&m0, p, i), l - 1) by {}
        lemma_released_kids(mem, &m0, p, l, 512);
        assert(reaches(&m0, p, l, p, l));
    }
}

/// Every node from frame `f` of `level` down is settled in the memory it
/// starts from.
proof fn lemma_settled_start<E: PageTableEntryTrait>(m0: &PageTableMem<E>, f: int, level: int)
    ensures
        settled(m0, m0, f, level),
    decreases level,
{
    if level >= 2 {
        assert forall|i: int| 0 <= i < 512 && is_link(m0, f, level, i) && level > 2
            implies #[trigger] settled(m0, m0, link_target(m0, f, i), level - 1) by {
            lemma_settled_start(m0, link_target(m0, f, i), level - 1);
        }
        lemma_settled_kids(m0, m0, f, level, 512);
    }
}

impl<E: PageTableEntryTrait> BootPageTable<E> {
    /// Drops the boot page table: walks it depth first from the root and,
    /// leaving each link, gives the node it points to back to the allocator
    /// when the link is marked with `PageFlags::AVAIL1` (a node that the
    /// boot page table allocated), then takes the link out. The nodes that
    /// the firmware or loader set up stay allocated.
    ///
    /// The table may be a DAG: a node met again holds no links any more,
    /// so nothing is given back twice.
    pub fn drop(self, mem: &mut PageTableMem<E>, alloc: &mut CountingFrameAllocator)
        requires
            release_shape(old(mem), self.root_pt as int),
            release_alloc_ok(old(mem), self.root_pt as int, *old(alloc)),
        ensures
            final(mem).nodes == old(mem).nodes,
            final(mem).ptes@.len() == old(mem).ptes@.len(),
            forall|f: int, i: int| #![trigger fpte(final(mem), f, i)] 0 <= f < old(mem).ptes@.len() && 0 <= i < old(mem).ptes@[f]@.len() ==>
                if walked_link(old(mem), self.root_pt as int, f, i) {
                    !fpte(final(mem), f, i).spec_present()
                } else {
                    fpte(final(mem), f, i) == fpte(old(mem), f, i)
                },
            ({
                let nodes = allocated_nodes(old(mem), self.root_pt as int);
                &&& forall|g: usize| #[trigger] final(alloc).free_frames().count(g) == old(alloc).free_frames().count(g)
                    + if nodes.contains(g as int) { 1nat } else { 0nat }
                &&& final(alloc).frame_counters() == (
                    (old(alloc).frame_counters().0 - nodes.len()) as nat,
                    old(alloc).frame_counters().1,
                )
                &&& final(alloc).allocated_spec() == old(alloc).allocated_spec() - nodes.len() * PAGE_SIZE_BYTES
                &&& final(alloc).total_spec() == old(alloc).total_spec()
            }),
    {
        let ghost m0 = *mem;
        let ghost a0 = *alloc;
        let ghost root = self.root_pt as int;
        proof {
            lemma_reach_frames_ok(&m0, root, NR_LEVELS as int, root, NR_LEVELS as int);
            lemma_settled_start(&m0, root, NR_LEVELS as int);
            let r = released_nodes(&m0, &m0, root);
            assert forall|t: int| !r.contains(t) by {
                if r.contains(t) {
                    let (f, i) = choose|f: int, i: int| #[trigger] walked_link(&m0, root, f, i) && marked_avail1(fpte(&m0, f, i))
                        && !fpte(&m0, f, i).spec_present() && t == link_target(&m0, f, i);
                }
            }
            assert(r =~= Set::empty());
        }
        release_walk(mem, alloc, self.root_pt, NR_LEVELS, Ghost(m0), Ghost(root), Ghost(a0));
        proof {
            let m = *mem;
            lemma_nodes_finite(&m0, &m, root, a0);
            assert forall|f: int, i: int| walked_link(&m0, root, f, i) implies !(#[trigger] fpte(&m, f, i)).spec_present() by {
                let lf = choose|lf: int| #[trigger] reaches(&m0, root, NR_LEVELS as int, f, lf) && 0 <= i < 512 && is_link(&m0, f, lf, i);
                lemma_reaches_level(&m0, root, NR_LEVELS as int, f, lf);
                lemma_reach_frames_ok(&m0, root, NR_LEVELS as int, f, lf);
                lemma_released_reach(&m, &m0, root, NR_LEVELS as int, f, lf);
                assert(links_cleared(&m, &m0, f, lf));
            }
            assert forall|f: int, i: int| 0 <= f < m0.ptes@.len() && 0 <= i < m0.ptes@[f]@.len() && !walked_link(&m0, root, f, i)
                implies #[trigger] fpte(&m, f, i) == fpte(&m0, f, i) by {
                if m.ptes@[f]@ != m0.ptes@[f]@ {
                    let lf = choose|lf: int| #[trigger] reaches(&m0, root, NR_LEVELS as int, f, lf);
                    lemma_reach_frames_ok(&m0, root, NR_LEVELS as int, f, lf);
                    lemma_released_reach(&m, &m0, root, NR_LEVELS as int, f, lf);
                    assert(links_cleared(&m, &m0, f, lf));
                    if is_link(&m0, f, lf, i) {
                        assert(walked_link(&m0, root, f, i));
                    }
                }
            }
            let nodes = allocated_nodes(&m0, root);
            let r = released_nodes(&m0, &m, root);
            assert forall|t: int| nodes.contains(t) implies r.contains(t) by {
                let (f, i) = choose|f: int, i: int| #[trigger] walked_link(&m0, root, f, i) && marked_avail1(fpte(&m0, f, i))
                    && t == link_target(&m0, f, i);
                assert(!fpte(&m, f, i).spec_present());
            }
            assert(r =~= nodes);
        }
    }
}

} // verus!
