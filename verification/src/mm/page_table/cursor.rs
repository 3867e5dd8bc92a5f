//! Page table cursors for mapping and querying over a page table.
//!
//! A cursor is created for a range of virtual addresses. It locates the
//! lowest page table node whose address range covers the whole range: the
//! guard node. From then on it walks in the subtree of the guard node only:
//! it keeps the path of nodes from the guard node down to the node whose
//! entry covers the current address (one node per level, in `guards`),
//! moves forward entry by entry, descends into child nodes and climbs back.
//!
//! What the cursor sees of an address is what the guard node's subtree maps
//! there: [`Cursor::view`]. For addresses of the cursor's range, this is
//! what the whole page table maps ([`PageTable::lookup_spec`]).

use vstd::prelude::*;
use core::marker::PhantomData;
use core::ops::Range;

use super::{
    node::{frame_of, lemma_inc_keeps_in_use, nr_present, range_number, Child, Entry, MapTrackingStatus, PageTableMem, PageTableNode, RawPageTableNode},
    page_offset, pte_index, pte_index_spec, translate, PageTable, PageTableEntryTrait, PageTableError, PageTableMode,
};
use crate::mm::{
    align_down, align_up, frame::{Frame, FrameManager, Unknown, REF_COUNT_MAX}, lemma_page_size_values, page_prop::PageProperty,
    page_size, page_size_spec, should_map_as_tracked, Paddr, PagingLevel, Vaddr, BASE_PAGE_SIZE, NR_LEVELS,
    HIGHEST_TRANSLATION_LEVEL, PAGE_SIZE,
};

verus! {

/// What a cursor finds at a slot.
#[derive(Debug)]
pub enum PageTableItem {
    /// Nothing is mapped in the `len` bytes from `va`.
    NotMapped { va: Vaddr, len: u64 },
    /// The tracked frame `page` is mapped at `va` with `prop`.
    Mapped { va: Vaddr, page: Frame<Unknown>, prop: PageProperty },
    /// The `len` bytes from `va` map the physical memory from `pa` with
    /// `prop`, which no handle tracks.
    MappedUntracked { va: Vaddr, pa: Paddr, len: u64, prop: PageProperty },
}

/// The item that a cursor at `va` reports for the leaf `leaf` of the page
/// table (a child and its level).
pub open spec fn item_of(leaf: (Child, int), va: Vaddr) -> PageTableItem {
    match leaf.0 {
        Child::Frame(page, prop) => PageTableItem::Mapped { va, page, prop },
        Child::Untracked(pa, _, prop) => PageTableItem::MappedUntracked {
            va,
            pa,
            len: page_size_spec(leaf.1) as u64,
            prop,
        },
        _ => PageTableItem::NotMapped { va, len: page_size_spec(leaf.1) as u64 },
    }
}

/// The cursor for traversal over a page table.
///
/// A slot is a PTE at any level, which corresponds to a certain virtual
/// memory range sized by the page size of the current level.
#[derive(Debug)]
pub struct Cursor<M: PageTableMode, E: PageTableEntryTrait> {
    /// The nodes on the path, one per level: the node of level `l` at index
    /// `l - 1`, from the guard level down to the current level.
    pub guards: Vec<Option<PageTableNode>>,
    /// The level of the node that the cursor points into.
    pub level: PagingLevel,
    /// The level of the guard node, the highest one the cursor holds.
    pub guard_level: PagingLevel,
    /// The virtual address that the cursor points to.
    pub va: Vaddr,
    /// The virtual address range that the cursor may access.
    pub barrier_va: Range<Vaddr>,
    /// The root of the page table.
    pub root: RawPageTableNode,
    pub _phantom: PhantomData<(M, E)>,
}

/// The page size of a level, as an integer.
pub open spec fn ps(l: int) -> int {
    page_size_spec(l) as int
}

impl<M: PageTableMode, E: PageTableEntryTrait> Cursor<M, E> {
    /// The node of level `l` on the path.
    pub open spec fn guard_at(&self, l: int) -> RawPageTableNode {
        (self.guards@[l - 1]->Some_0).page
    }

    /// The guard node.
    pub open spec fn guard_node(&self) -> RawPageTableNode {
        self.guard_at(self.guard_level as int)
    }

    /// The node that the cursor points into.
    pub open spec fn cur_node(&self) -> RawPageTableNode {
        self.guard_at(self.level as int)
    }

    /// The levels of the path hold nodes of their level, each the child of
    /// the one above at the index of the current address.
    pub open spec fn wf(&self, mem: &PageTableMem<E>) -> bool {
        &&& self.guards@.len() == NR_LEVELS
        &&& 1 <= self.level <= self.guard_level <= NR_LEVELS
        &&& forall|l: int| self.level <= l <= self.guard_level ==> {
            &&& #[trigger] self.guards@[l - 1] is Some
            &&& self.guard_at(l).level == l
            &&& mem.is_node(self.guard_at(l).raw, l)
        }
        &&& forall|l: int| self.level <= l < self.guard_level ==>
            #[trigger] mem.node(self.guard_at(l + 1).raw).table@[pte_index_spec(self.va, l + 1) as int]
                == Child::PageTable(self.guard_at(l))
        &&& self.barrier_va.start < self.barrier_va.end
        &&& self.barrier_va.start <= self.va
        &&& self.va % BASE_PAGE_SIZE == 0
        &&& self.in_guard_range((self.barrier_va.end - 1) as Vaddr)
        &&& self.va < self.barrier_va.end ==> self.in_guard_range(self.va)
        &&& mem.node(self.guard_node().raw).prefix@ == range_number(self.barrier_va.start as int, self.guard_level as int)
    }

    /// What the guard node's subtree maps at `va`: the leaf and its level.
    pub open spec fn view(&self, mem: &PageTableMem<E>, va: Vaddr) -> (Child, int) {
        mem.lookup(self.guard_node().raw, self.guard_level as int, va)
    }

    /// Whether `va` lies in the address range of the guard node.
    pub open spec fn in_guard_range(&self, va: Vaddr) -> bool {
        va as int / ps(self.guard_level + 1) == self.barrier_va.start as int / ps(
            self.guard_level + 1,
        )
    }

    /// Following the path from the guard node gives the current node's view
    /// of the current address.
    pub proof fn lemma_view_at_cur(&self, mem: &PageTableMem<E>, l: int)
        requires
            self.wf(mem),
            self.level <= l <= self.guard_level,
        ensures
            self.view(mem, self.va) == mem.lookup(self.guard_at(l).raw, l, self.va),
        decreases self.guard_level - l,
    {
        if l < self.guard_level {
            self.lemma_view_at_cur(mem, l + 1);
            assert(self.guards@[l - 1] is Some);
            assert(self.guards@[l] is Some);
            assert(mem.node(self.guard_at(l + 1).raw).table@[pte_index_spec(self.va, l + 1) as int]
                == Child::PageTable(self.guard_at(l)));
        }
    }
}

/// The page size of a level is 512 times the page size of the level below.
pub proof fn lemma_page_size_step(l: int)
    requires
        1 <= l,
    ensures
        ps(l + 1) == 512 * ps(l),
        ps(l) > 0,
    decreases l,
{
    if l > 1 {
        lemma_page_size_step(l - 1);
    }
}

/// Dividing by the page size of the next level divides the quotient by 512.
pub proof fn lemma_div_next_level(x: int, l: int)
    requires
        0 <= x,
        1 <= l,
    ensures
        x / ps(l + 1) == (x / ps(l)) / 512,
{
    lemma_page_size_step(l);
    vstd::arithmetic::div_mod::lemma_div_denominator(x, ps(l), 512);
    vstd::arithmetic::mul::lemma_mul_is_commutative(ps(l), 512);
}

/// Two addresses with the same quotient at a level have the same quotients,
/// and so the same indices, at every level above.
pub proof fn lemma_same_prefix_above(a: Vaddr, b: Vaddr, l: int, m: int)
    requires
        1 <= l <= m,
        a as int / ps(l) == b as int / ps(l),
    ensures
        a as int / ps(m) == b as int / ps(m),
        m >= 2 ==> pte_index_spec(a, m) == pte_index_spec(b, m),
    decreases m - l,
{
    if m > l {
        lemma_same_prefix_above(a, b, l, m - 1);
        lemma_div_next_level(a as int, m - 1);
        lemma_div_next_level(b as int, m - 1);
    }
}

/// Adding one to a quotient carries into the next quotient exactly when the
/// index becomes zero.
proof fn lemma_carry(x: int)
    requires
        0 <= x,
    ensures
        (x + 1) % 512 != 0 ==> (x + 1) / 512 == x / 512,
        (x + 1) % 512 == 0 ==> (x + 1) / 512 == x / 512 + 1,
{
    vstd::arithmetic::div_mod::lemma_fundamental_div_mod(x, 512);
    vstd::arithmetic::div_mod::lemma_fundamental_div_mod(x + 1, 512);
}

/// The address of the next slot of `level` after `va` is a multiple of the
/// page size whose quotient is one more than that of `va`.
proof fn lemma_next_slot(va: Vaddr, base: Vaddr, l: int)
    requires
        1 <= l,
        base == va - (va as int) % ps(l),
    ensures
        (base + ps(l)) / ps(l) == va as int / ps(l) + 1,
{
    let p = ps(l);
    lemma_page_size_step(l);
    vstd::arithmetic::div_mod::lemma_fundamental_div_mod(va as int, p);
    vstd::arithmetic::div_mod::lemma_div_multiples_vanish(va as int / p + 1, p);
    vstd::arithmetic::mul::lemma_mul_is_distributive_add(p, va as int / p, 1);
}

/// The quotient at a level splits into the quotient at the next level and
/// the index at the level.
pub proof fn lemma_quot_split(x: Vaddr, l: int)
    requires
        1 <= l,
    ensures
        x as int / ps(l) == (x as int / ps(l + 1)) * 512 + pte_index_spec(x, l),
{
    lemma_div_next_level(x as int, l);
    lemma_page_size_step(l);
    vstd::arithmetic::div_mod::lemma_fundamental_div_mod(x as int / ps(l), 512);
    vstd::arithmetic::div_mod::lemma_div_pos_is_pos(x as int, ps(l));
}

/// An address between two addresses of the same slot of a level is in that
/// slot too.
proof fn lemma_same_index_between(a: Vaddr, b: Vaddr, v: Vaddr, l: int)
    requires
        1 <= l,
        a <= v <= b,
        a as int / ps(l + 1) == b as int / ps(l + 1),
        pte_index_spec(a, l) == pte_index_spec(b, l),
    ensures
        a as int / ps(l) == v as int / ps(l),
        pte_index_spec(v, l) == pte_index_spec(a, l),
{
    lemma_quot_split(a, l);
    lemma_quot_split(b, l);
    lemma_page_size_step(l);
    vstd::arithmetic::div_mod::lemma_div_is_ordered(a as int, v as int, ps(l));
    vstd::arithmetic::div_mod::lemma_div_is_ordered(v as int, b as int, ps(l));
}

/// Whether creating a cursor over `[start, end)` from the node at `pa` of
/// `level` stays clear of untracked mappings, on which it panics.
pub open spec fn descent_ok<E: PageTableEntryTrait>(mem: &PageTableMem<E>, pa: Paddr, level: int, start: Vaddr, end: Vaddr) -> bool
    decreases level,
{
    let si = pte_index_spec(start, level);
    let ei = pte_index_spec((end - 1) as Vaddr, level);
    if level > 1 && si == ei {
        match mem.node(pa).table@[si as int] {
            Child::PageTable(raw) => descent_ok(mem, raw.raw, level - 1, start, end),
            Child::Untracked(_, _, _) => false,
            _ => true,
        }
    } else {
        true
    }
}

/// The node that a cursor over `[start, end)` holds, found from the node at
/// `pa` of `level`: the lowest node on the way down whose single entry
/// covers the range, and its level.
pub open spec fn guard_of<E: PageTableEntryTrait>(mem: &PageTableMem<E>, pa: Paddr, level: int, start: Vaddr, end: Vaddr) -> (Paddr, int)
    decreases level,
{
    let si = pte_index_spec(start, level);
    let ei = pte_index_spec((end - 1) as Vaddr, level);
    if level > 1 && si == ei {
        match mem.node(pa).table@[si as int] {
            Child::PageTable(raw) => guard_of(mem, raw.raw, level - 1, start, end),
            _ => (pa, level),
        }
    } else {
        (pa, level)
    }
}

/// Whether the range is one that cursors accept for page tables of mode `M`.
pub open spec fn range_ok<M: PageTableMode>(va: Range<Vaddr>) -> bool {
    &&& M::range_start() <= va.start
    &&& va.end <= M::range_end()
    &&& va.start < va.end
    &&& va.start % BASE_PAGE_SIZE == 0
    &&& va.end % BASE_PAGE_SIZE == 0
}

impl<M: PageTableMode, E: PageTableEntryTrait> Cursor<M, E> {
    /// Creates a cursor claiming read access to the given range.
    ///
    /// The cursor holds the lowest node whose address range covers the whole
    /// range. It fails with `InvalidVaddrRange` when the range is empty or
    /// outside the page table's mode, and with `UnalignedVaddr` when a bound
    /// is not page aligned. Meeting an untracked mapping on the way down
    /// panics (excluded here).
    #[verifier::spinoff_prover]
    pub fn new(pt: &PageTable<M, E>, mem: &PageTableMem<E>, fm: &FrameManager, va: &Range<Vaddr>) -> (r: Result<Self, PageTableError>)
        requires
            fm.wf(),
            mem.wf(fm),
            pt.wf(mem),
            range_ok::<M>(*va) ==> descent_ok(mem, pt.root.raw, NR_LEVELS as int, va.start, va.end),
        ensures
            !(M::range_start() <= va.start && va.end <= M::range_end()) || va.start >= va.end
                ==> r == Err::<Self, PageTableError>(PageTableError::InvalidVaddrRange(va.start, va.end)),
            M::range_start() <= va.start && va.end <= M::range_end() && va.start < va.end && !(va.start
                % BASE_PAGE_SIZE == 0 && va.end % BASE_PAGE_SIZE == 0)
                ==> r == Err::<Self, PageTableError>(PageTableError::UnalignedVaddr),
            range_ok::<M>(*va) ==> r is Ok,
            match r {
                Ok(c) => {
                    &&& c.wf(mem)
                    &&& c.va == va.start
                    &&& c.barrier_va == *va
                    &&& c.level == c.guard_level
                    &&& c.root == pt.root
                    &&& (c.guard_node().raw, c.guard_level as int) == guard_of(mem, pt.root.raw, NR_LEVELS as int, va.start, va.end)
                    &&& forall|v: Vaddr| va.start <= v < va.end ==> #[trigger] c.in_guard_range(v) && pt.lookup_spec(mem, v)
                        == c.view(mem, v)
                },
                Err(_) => true,
            },
    {
        if !M::covers(va) || va.start >= va.end {
            return Err(PageTableError::InvalidVaddrRange(va.start, va.end));
        }
        if va.start % BASE_PAGE_SIZE != 0 || va.end % BASE_PAGE_SIZE != 0 {
            return Err(PageTableError::UnalignedVaddr);
        }
        proof {
            M::lemma_range_in_one_prefix();
            assert forall|v: Vaddr| va.start <= v < va.end implies {
                &&& #[trigger] pt.lookup_spec(mem, v) == mem.lookup(pt.root.raw, NR_LEVELS as int, v)
                &&& v as int / ps(NR_LEVELS + 1) == va.start as int / ps(NR_LEVELS + 1)
            } by {
                lemma_page_size_step(NR_LEVELS as int);
                vstd::arithmetic::div_mod::lemma_div_is_ordered(M::range_start() as int, va.start as int, ps(NR_LEVELS + 1));
                vstd::arithmetic::div_mod::lemma_div_is_ordered(va.start as int, v as int, ps(NR_LEVELS + 1));
                vstd::arithmetic::div_mod::lemma_div_is_ordered(v as int, (M::range_end() - 1) as int, ps(NR_LEVELS + 1));
            }
        }
        let mut level: PagingLevel = NR_LEVELS;
        let mut node = pt.root;
        proof {
            assert forall|v: Vaddr| va.start <= v < va.end implies {
                &&& #[trigger] pt.lookup_spec(mem, v) == mem.lookup(node.raw, level as int, v)
                &&& v as int / ps(level + 1) == va.start as int / ps(level + 1)
            } by {
                assert(pt.lookup_spec(mem, v) == mem.lookup(pt.root.raw, NR_LEVELS as int, v));
                assert(level == NR_LEVELS);
                lemma_page_size_step(NR_LEVELS as int);
                vstd::arithmetic::div_mod::lemma_div_is_ordered(M::range_start() as int, va.start as int, ps(NR_LEVELS + 1));
                vstd::arithmetic::div_mod::lemma_div_is_ordered(va.start as int, v as int, ps(NR_LEVELS + 1));
                vstd::arithmetic::div_mod::lemma_div_is_ordered(v as int, (M::range_end() - 1) as int, ps(NR_LEVELS + 1));
            }
        }
        loop
            invariant
                fm.wf(),
                mem.wf(fm),
                pt.wf(mem),
                range_ok::<M>(*va),
                1 <= level <= NR_LEVELS,
                node.level == level,
                mem.is_node(node.raw, level as int),
                descent_ok(mem, node.raw, level as int, va.start, va.end),
                guard_of(mem, pt.root.raw, NR_LEVELS as int, va.start, va.end) == guard_of(mem, node.raw, level as int, va.start, va.end),
                forall|v: Vaddr| va.start <= v < va.end ==> {
                    &&& #[trigger] pt.lookup_spec(mem, v) == mem.lookup(node.raw, level as int, v)
                    &&& v as int / ps(level + 1) == va.start as int / ps(level + 1)
                },
            ensures
                guard_of(mem, pt.root.raw, NR_LEVELS as int, va.start, va.end) == (node.raw, level as int),
            decreases level,
        {
            proof {
                lemma_page_size_values();
            }
            let start_idx = pte_index(va.start, level);
            let end_idx = pte_index(va.end - 1, level);
            if !(level > 1 && start_idx == end_idx) {
                break;
            }
            proof {
                assert(mem.node_wf(fm, frame_of(node.raw)));
            }
            match node.get_child(mem, start_idx) {
                Child::PageTable(child) => {
                    proof {
                        let rec = mem.node(node.raw);
                        assert(mem.child_ok(fm, rec.table@[start_idx as int], rec.meta.level, rec.meta.is_tracked));
                        assert forall|v: Vaddr| va.start <= v < va.end implies {
                            &&& #[trigger] pt.lookup_spec(mem, v) == mem.lookup(child.raw, level - 1, v)
                            &&& v as int / ps(level as int) == va.start as int / ps(level as int)
                        } by {
                            let b = (va.end - 1) as Vaddr;
                            assert(pt.lookup_spec(mem, b) == mem.lookup(node.raw, level as int, b));
                            assert(b as int / ps(level + 1) == va.start as int / ps(level + 1));
                            lemma_same_index_between(va.start, b, v, level as int);
                        }
                    }
                    node = *child;
                    level = level - 1;
                },
                Child::Untracked(_, _, _) => {
                    proof {
                        assert(false);
                    }
                    break;
                },
                _ => {
                    break;
                },
            }
        }
        let mut guards: Vec<Option<PageTableNode>> = Vec::new();
        let mut i: usize = 0;
        while i < 4
            invariant
                i <= 4,
                guards@.len() == i,
            decreases 4 - i,
        {
            guards.push(None);
            i = i + 1;
        }
        guards.set((level - 1) as usize, Some(node.lock()));
        let c = Cursor {
            guards,
            level,
            guard_level: level,
            va: va.start,
            barrier_va: va.start..va.end,
            root: pt.root,
            _phantom: PhantomData,
        };
        proof {
            assert(c.guards@[level - 1] is Some);
            assert(c.guard_node() == node);
            let b = (va.end - 1) as Vaddr;
            assert(pt.lookup_spec(mem, b) == mem.lookup(node.raw, level as int, b));
            lemma_page_size_values();
            assert(range_number(va.start as int, NR_LEVELS as int) == 0);
            lemma_guard_of_prefix(mem, fm, pt.root.raw, NR_LEVELS as int, va.start, va.end);
            assert(c.wf(mem));
            assert forall|v: Vaddr| va.start <= v < va.end implies #[trigger] c.in_guard_range(v) && pt.lookup_spec(mem, v)
                == c.view(mem, v) by {
                assert(pt.lookup_spec(mem, v) == mem.lookup(node.raw, level as int, v));
            }
        }
        Ok(c)
    }

    /// The virtual address that the cursor points to.
    pub fn virt_addr(&self) -> (r: Vaddr)
        ensures
            r == self.va,
    {
        self.va
    }
}

impl<M: PageTableMode, E: PageTableEntryTrait> Cursor<M, E> {
    /// The cursor is `old` with only its position changed: the same guard
    /// node, range and root.
    pub open spec fn same_frame(&self, old: &Self) -> bool {
        &&& self.guard_level == old.guard_level
        &&& self.barrier_va == old.barrier_va
        &&& self.root == old.root
        &&& self.guard_node() == old.guard_node()
    }

    /// The entry that the cursor points to.
    fn cur_entry(&self, mem: &PageTableMem<E>) -> (r: Entry<E>)
        requires
            self.wf(mem),
            mem.shape_ok(),
        ensures
            r.node == self.guards@[self.level - 1]->Some_0,
            r.node.page == self.cur_node(),
            r.idx == pte_index_spec(self.va, self.level as int),
            r.pte == mem.pte(self.cur_node().raw, r.idx as int),
    {
        let node = self.guards[(self.level - 1) as usize].unwrap();
        proof {
            lemma_page_size_values();
        }
        node.entry(mem, pte_index(self.va, self.level))
    }

    /// Goes down one level, into `child_pt`, the child node of the current
    /// entry.
    fn push_level(&mut self, mem: &PageTableMem<E>, child_pt: PageTableNode)
        requires
            old(self).wf(mem),
            old(self).level > 1,
            mem.is_node(child_pt.page.raw, old(self).level - 1),
            child_pt.page.level == old(self).level - 1,
            mem.node(old(self).cur_node().raw).table@[pte_index_spec(old(self).va, old(self).level as int) as int]
                == Child::PageTable(child_pt.page),
        ensures
            final(self).wf(mem),
            final(self).same_frame(old(self)),
            final(self).va == old(self).va,
            final(self).level == old(self).level - 1,
            final(self).cur_node() == child_pt.page,
            forall|l: int| old(self).level <= l <= old(self).guard_level ==> #[trigger] final(self).guard_at(l) == old(self).guard_at(l),
    {
        self.level = self.level - 1;
        self.guards.set((self.level - 1) as usize, Some(child_pt));
        proof {
            assert forall|l: int| self.level <= l <= self.guard_level implies {
                &&& #[trigger] self.guards@[l - 1] is Some
                &&& self.guard_at(l).level == l
                &&& mem.is_node(self.guard_at(l).raw, l)
            } by {
                if l > self.level {
                    assert(old(self).guards@[l - 1] is Some);
                }
            }
            assert forall|l: int| self.level <= l < self.guard_level implies #[trigger] mem.node(self.guard_at(l + 1).raw).table@[pte_index_spec(self.va, l + 1) as int]
                == Child::PageTable(self.guard_at(l)) by {
                if l > self.level {
                    assert(old(self).guards@[l - 1] is Some);
                    assert(mem.node(old(self).guard_at(l + 1).raw).table@[pte_index_spec(old(self).va, l + 1) as int]
                        == Child::PageTable(old(self).guard_at(l)));
                }
            }
        }
    }

    /// Goes up one level, releasing the current node.
    fn pop_level(&mut self, mem: &PageTableMem<E>)
        requires
            old(self).wf(mem),
            old(self).level < old(self).guard_level,
        ensures
            final(self).wf(mem),
            final(self).same_frame(old(self)),
            final(self).va == old(self).va,
            final(self).level == old(self).level + 1,
            forall|l: int| final(self).level <= l <= final(self).guard_level ==> #[trigger] final(self).guard_at(l) == old(self).guard_at(l),
    {
        self.guards.set((self.level - 1) as usize, None);
        self.level = self.level + 1;
        proof {
            assert forall|l: int| self.level <= l <= self.guard_level implies {
                &&& #[trigger] self.guards@[l - 1] is Some
                &&& self.guard_at(l).level == l
                &&& mem.is_node(self.guard_at(l).raw, l)
            } by {
                assert(old(self).guards@[l - 1] is Some);
            }
            assert forall|l: int| self.level <= l < self.guard_level implies #[trigger] mem.node(self.guard_at(l + 1).raw).table@[pte_index_spec(self.va, l + 1) as int]
                == Child::PageTable(self.guard_at(l)) by {
                assert(old(self).guards@[l - 1] is Some);
                assert(old(self).guards@[l] is Some);
                assert(mem.node(old(self).guard_at(l + 1).raw).table@[pte_index_spec(old(self).va, l + 1) as int]
                    == Child::PageTable(old(self).guard_at(l)));
            }
            assert(old(self).guards@[self.guard_level - 1] is Some);
        }
    }

    /// The address of the next slot of the current level.
    pub open spec fn next_slot_va(&self) -> int {
        self.va - self.va as int % ps(self.level as int) + ps(self.level as int)
    }

    /// Moves the cursor forward to the next slot of the current level,
    /// climbing up while the slot is the first of its node.
    ///
    /// An address past the end of the address space overflows (excluded
    /// here).
    pub fn move_forward(&mut self, mem: &PageTableMem<E>)
        requires
            old(self).wf(mem),
            old(self).next_slot_va() <= u64::MAX,
        ensures
            final(self).wf(mem),
            final(self).same_frame(old(self)),
            final(self).va == old(self).next_slot_va(),
            old(self).level <= final(self).level,
            final(self).level == final(self).guard_level || pte_index_spec(final(self).va, final(self).level as int) != 0,
            forall|l: int| final(self).level <= l <= final(self).guard_level ==> #[trigger] final(self).guard_at(l) == old(self).guard_at(l),
    {
        let size = page_size(self.level);
        proof {
            lemma_page_size_values();
        }
        let next_va = align_down(self.va, size) + size;
        let ghost old_va = self.va;
        let ghost old_level = self.level;
        proof {
            lemma_next_slot(old_va, (next_va - size) as Vaddr, old_level as int);
        }
        while self.level < self.guard_level && pte_index(next_va, self.level) == 0
            invariant
                self.wf(mem),
                self.same_frame(old(self)),
                self.va == old_va,
                old_va == old(self).va,
                old_level == old(self).level,
                old_level <= self.level <= self.guard_level,
                next_va == old(self).next_slot_va(),
                next_va as int / ps(self.level as int) == old_va as int / ps(self.level as int) + 1,
                forall|l: int| self.level <= l <= self.guard_level ==> #[trigger] self.guard_at(l) == old(self).guard_at(l),
            decreases self.guard_level - self.level,
        {
            proof {
                lemma_page_size_step(self.level as int);
                let x = old_va as int / ps(self.level as int);
                vstd::arithmetic::div_mod::lemma_div_pos_is_pos(old_va as int, ps(self.level as int));
                lemma_carry(x);
                lemma_quot_split(next_va, self.level as int);
                lemma_div_next_level(next_va as int, self.level as int);
                lemma_div_next_level(old_va as int, self.level as int);
                vstd::arithmetic::div_mod::lemma_div_pos_is_pos(old_va as int, ps(self.level as int));
                lemma_page_size_step(self.level as int);
            }
            self.pop_level(mem);
            proof {
                lemma_page_size_values();
            }
        }
        let ghost lv = self.level;
        proof {
            lemma_page_size_step(lv as int);
            lemma_page_size_step(old_level as int);
            vstd::arithmetic::div_mod::lemma_div_pos_is_pos(old_va as int, ps(lv as int));
            vstd::arithmetic::div_mod::lemma_div_pos_is_pos(old_va as int, ps(old_level as int));
            if lv < self.guard_level {
                lemma_page_size_values();
                let x = old_va as int / ps(lv as int);
                lemma_carry(x);
                lemma_quot_split(next_va, lv as int);
                lemma_div_next_level(next_va as int, lv as int);
                lemma_div_next_level(old_va as int, lv as int);
                assert(next_va as int / ps(lv + 1) == old_va as int / ps(lv + 1));
                assert forall|l: int| lv <= l < self.guard_level implies #[trigger] pte_index_spec(next_va, l + 1) == pte_index_spec(old_va, l + 1) by {
                    lemma_same_prefix_above(next_va, old_va, lv + 1, l + 1);
                }
                lemma_same_prefix_above(next_va, old_va, lv + 1, self.guard_level + 1);
            }
            self.lemma_next_in_guard(next_va, old_va);
            assert(next_va % 4096 == 0) by {
                self.lemma_next_aligned(next_va, old_va, old_level as int);
            }
        }
        self.va = next_va;
        proof {
            assert forall|l: int| self.level <= l < self.guard_level implies #[trigger] mem.node(self.guard_at(l + 1).raw).table@[pte_index_spec(self.va, l + 1) as int]
                == Child::PageTable(self.guard_at(l)) by {
                assert(self.guards@[l - 1] is Some);
            }
        }
    }

    /// The next slot is a multiple of the base page size.
    proof fn lemma_next_aligned(&self, next_va: Vaddr, old_va: Vaddr, level: int)
        requires
            1 <= level <= NR_LEVELS,
            next_va == old_va - old_va as int % ps(level) + ps(level),
        ensures
            next_va % 4096 == 0,
    {
        lemma_page_size_values();
        let p = ps(level);
        vstd::arithmetic::div_mod::lemma_fundamental_div_mod(old_va as int, p);
        assert(next_va == (old_va as int / p + 1) * p) by (nonlinear_arith)
            requires
                next_va == old_va - old_va as int % p + p,
                old_va == p * (old_va as int / p) + old_va as int % p;
        let m = p / 4096;
        assert(p == 4096 * m);
        let q = old_va as int / p + 1;
        assert(q * p == (q * m) * 4096) by (nonlinear_arith)
            requires p == 4096 * m;
        vstd::arithmetic::div_mod::lemma_mod_multiples_basic(q * m, 4096);
    }

    /// A later address that is still in the range is in the guard node's
    /// address range too.
    proof fn lemma_next_in_guard(&self, next_va: Vaddr, old_va: Vaddr)
        requires
            1 <= self.guard_level <= NR_LEVELS,
            self.in_guard_range((self.barrier_va.end - 1) as Vaddr),
            self.barrier_va.start < self.barrier_va.end,
            old_va < self.barrier_va.end ==> self.in_guard_range(old_va),
            next_va > old_va,
        ensures
            next_va < self.barrier_va.end ==> self.in_guard_range(next_va),
    {
        let gl = self.guard_level as int;
        lemma_page_size_step(gl + 1);
        let b = (self.barrier_va.end - 1) as Vaddr;
        if next_va < self.barrier_va.end {
            vstd::arithmetic::div_mod::lemma_div_is_ordered(old_va as int, next_va as int, ps(gl + 1));
            vstd::arithmetic::div_mod::lemma_div_is_ordered(next_va as int, b as int, ps(gl + 1));
        }
    }
}

/// An address is in the slot of size `p` that starts at the slot base of
/// `x` exactly when it has the same quotient as `x`.
proof fn lemma_in_slot(x: Vaddr, v: Vaddr, start: int, p: int)
    requires
        p > 0,
        start == x - x as int % p,
    ensures
        (start <= v && v - start < p) == (v as int / p == x as int / p),
{
    vstd::arithmetic::div_mod::lemma_fundamental_div_mod(x as int, p);
    vstd::arithmetic::div_mod::lemma_fundamental_div_mod(v as int, p);
    let q = x as int / p;
    let qv = v as int / p;
    assert(start == q * p) by (nonlinear_arith)
        requires start == x - x as int % p, x == p * q + x as int % p;
    if start <= v && v - start < p {
        assert(qv == q) by (nonlinear_arith)
            requires
                q * p <= v < q * p + p,
                v == p * qv + v as int % p,
                0 <= v as int % p < p,
                p > 0;
    }
    if qv == q {
        assert(start <= v && v - start < p) by (nonlinear_arith)
            requires
                start == q * p,
                v == p * qv + v as int % p,
                0 <= v as int % p < p,
                qv == q;
    }
}

impl<M: PageTableMode, E: PageTableEntryTrait> Cursor<M, E> {
    /// Every address of the range is in the guard node's address range.
    proof fn lemma_barrier_in_guard(&self, v: Vaddr)
        requires
            1 <= self.guard_level <= NR_LEVELS,
            self.in_guard_range((self.barrier_va.end - 1) as Vaddr),
            self.barrier_va.start <= v < self.barrier_va.end,
        ensures
            self.in_guard_range(v),
    {
        let gl = self.guard_level as int;
        lemma_page_size_step(gl + 1);
        vstd::arithmetic::div_mod::lemma_div_is_ordered(self.barrier_va.start as int, v as int, ps(gl + 1));
        vstd::arithmetic::div_mod::lemma_div_is_ordered(v as int, (self.barrier_va.end - 1) as int, ps(gl + 1));
    }

    /// Jumps to the given virtual address, which must be page aligned.
    ///
    /// Fails with `InvalidVaddr` when the address is outside the cursor's
    /// range; an unaligned address panics (excluded here).
    pub fn jump(&mut self, mem: &PageTableMem<E>, va: Vaddr) -> (r: Result<(), PageTableError>)
        requires
            old(self).wf(mem),
            va % BASE_PAGE_SIZE == 0,
        ensures
            final(self).wf(mem),
            final(self).same_frame(old(self)),
            !(old(self).barrier_va.start <= va < old(self).barrier_va.end) ==> {
                &&& r == Err::<(), PageTableError>(PageTableError::InvalidVaddr(va))
                &&& *final(self) == *old(self)
            },
            old(self).barrier_va.start <= va < old(self).barrier_va.end ==> r is Ok && final(self).va == va,
    {
        if !(self.barrier_va.start <= va && va < self.barrier_va.end) {
            return Err(PageTableError::InvalidVaddr(va));
        }
        proof {
            self.lemma_barrier_in_guard(va);
        }
        loop
            invariant
                self.wf(mem),
                self.same_frame(old(self)),
                self.barrier_va.start <= va < self.barrier_va.end,
                self.in_guard_range(va),
                va % BASE_PAGE_SIZE == 0,
            decreases self.guard_level - self.level,
        {
            proof {
                lemma_page_size_values();
            }
            let node_size = page_size(self.level + 1);
            proof {
                lemma_page_size_step(self.level + 1);
            }
            let cur_node_start = align_down(self.va, node_size);
            proof {
                lemma_in_slot(self.va, va, cur_node_start as int, node_size as int);
            }
            if cur_node_start <= va && va - cur_node_start < node_size {
                let ghost old_va = self.va;
                self.va = va;
                proof {
                    assert forall|l: int| self.level <= l < self.guard_level implies #[trigger] mem.node(self.guard_at(l + 1).raw).table@[pte_index_spec(self.va, l + 1) as int]
                        == Child::PageTable(self.guard_at(l)) by {
                        assert(self.guards@[l - 1] is Some);
                        assert(mem.node(self.guard_at(l + 1).raw).table@[pte_index_spec(old_va, l + 1) as int]
                            == Child::PageTable(self.guard_at(l)));
                        lemma_same_prefix_above(va, old_va, self.level + 1, l + 1);
                    }
                }
                return Ok(());
            }
            if self.va >= self.barrier_va.end && self.level == self.guard_level {
                self.va = va;
                return Ok(());
            }
            proof {
                if self.level == self.guard_level {
                    assert(self.in_guard_range(self.va));
                }
            }
            self.pop_level(mem);
        }
    }

    /// Whether pages mapped at the current address are tracked.
    pub fn should_map_as_tracked(&self) -> (r: bool)
        ensures
            r == !(crate::mm::LINEAR_MAPPING_BASE_VADDR <= self.va < crate::mm::FRAME_METADATA_BASE_VADDR),
    {
        should_map_as_tracked(self.va)
    }

    /// Reports what the current slot holds, as `query` does, and moves past
    /// it; past the end of the range it returns `None` and stays.
    pub fn next(&mut self, mem: &PageTableMem<E>, fm: &mut FrameManager) -> (r: Option<PageTableItem>)
        requires
            old(self).wf(mem),
            old(fm).wf(),
            mem.wf(old(fm)),
            old(self).barrier_va.end + ps(old(self).guard_level as int) <= u64::MAX + 1,
            match old(self).view(mem, old(self).va).0 {
                Child::Frame(f, _) => old(fm).ref_count_of(f.index()) < REF_COUNT_MAX,
                _ => true,
            },
        ensures
            final(self).wf(mem),
            final(self).same_frame(old(self)),
            final(fm).wf(),
            mem.wf(final(fm)),
            old(self).va >= old(self).barrier_va.end ==> r is None && final(self).va == old(self).va && *final(fm) == *old(fm),
            old(self).va < old(self).barrier_va.end ==> {
                &&& r == Some(item_of(old(self).view(mem, old(self).va), old(self).va))
                &&& final(self).va > old(self).va
            },
    {
        let result = self.query(mem, fm);
        match result {
            Ok(item) => {
                proof {
                    lemma_page_size_mono(self.level as int, self.guard_level as int);
                    lemma_page_size_values();
                    assert(ps(self.level as int) > 0) by {
                        lemma_page_size_mono(1, self.level as int);
                    }
                    vstd::arithmetic::div_mod::lemma_mod_bound(self.va as int, ps(self.level as int));
                }
                self.move_forward(mem);
                Some(item)
            },
            Err(_) => None,
        }
    }

    /// Gets the information of the current slot: what is mapped there.
    ///
    /// Fails with `InvalidVaddr` when the cursor is past its range. A mapped
    /// tracked frame is returned as a new handle, taking a reference;
    /// reaching `REF_COUNT_MAX` panics (excluded here).
    pub fn query(&mut self, mem: &PageTableMem<E>, fm: &mut FrameManager) -> (r: Result<PageTableItem, PageTableError>)
        requires
            old(self).wf(mem),
            old(fm).wf(),
            mem.wf(old(fm)),
            match old(self).view(mem, old(self).va).0 {
                Child::Frame(f, _) => old(fm).ref_count_of(f.index()) < REF_COUNT_MAX,
                _ => true,
            },
        ensures
            final(self).wf(mem),
            final(self).same_frame(old(self)),
            final(self).va == old(self).va,
            final(fm).wf(),
            mem.wf(final(fm)),
            old(self).va >= old(self).barrier_va.end ==> {
                &&& r == Err::<PageTableItem, PageTableError>(PageTableError::InvalidVaddr(old(self).va))
                &&& *final(fm) == *old(fm)
            },
            old(self).va < old(self).barrier_va.end ==> match r {
                Ok(PageTableItem::NotMapped { va, len }) => {
                    &&& va == old(self).va
                    &&& len == 0x1000 || len == 0x20_0000 || len == 0x4000_0000 || len == 0x80_0000_0000
                    &&& forall|u: Vaddr| u as int / len as int == va as int / len as int
                        ==> #[trigger] translate(old(self).view(mem, u), u) is None
                },
                Ok(PageTableItem::MappedUntracked { va, pa, len, prop }) => {
                    &&& va == old(self).va
                    &&& len == 0x1000 || len == 0x20_0000 || len == 0x4000_0000 || len == 0x80_0000_0000
                    &&& forall|u: Vaddr| u as int / len as int == va as int / len as int
                        ==> #[trigger] translate(old(self).view(mem, u), u) == Some(((pa + u as int % len as int) as Paddr, prop))
                },
                Ok(PageTableItem::Mapped { va, page, prop }) => {
                    &&& va == old(self).va
                    &&& forall|u: Vaddr| u as int / 4096 == va as int / 4096
                        ==> #[trigger] translate(old(self).view(mem, u), u) == Some(((page.paddr() + u as int % 4096) as Paddr, prop))
                },
                Err(_) => false,
            },
            old(self).va < old(self).barrier_va.end ==> {
                &&& r == Ok::<PageTableItem, PageTableError>(item_of(old(self).view(mem, old(self).va), old(self).va))
                &&& match old(self).view(mem, old(self).va).0 {
                    Child::Frame(f, _) => final(fm).ref_counts() == old(fm).ref_counts().update(
                        f.index(),
                        (old(fm).ref_count_of(f.index()) + 1) as u32,
                    ),
                    _ => *final(fm) == *old(fm),
                }
            },
    {
        if self.va >= self.barrier_va.end {
            return Err(PageTableError::InvalidVaddr(self.va));
        }
        proof {
            self.lemma_view_at_cur(mem, self.level as int);
            mem.lemma_wf_shape(fm);
            self.lemma_query_item_covers(mem, fm);
        }
        loop
            invariant
                self.wf(mem),
                old(self).wf(mem),
                old(self).va < old(self).barrier_va.end,
                self.same_frame(old(self)),
                self.va == old(self).va,
                self.va < self.barrier_va.end,
                *fm == *old(fm),
                fm.wf(),
                mem.wf(fm),
                mem.shape_ok(),
                old(self).view(mem, old(self).va) == mem.lookup(self.cur_node().raw, self.level as int, self.va),
                match old(self).view(mem, old(self).va).0 {
                    Child::Frame(f, _) => fm.ref_count_of(f.index()) < REF_COUNT_MAX,
                    _ => true,
                },
            decreases self.level,
        {
            let level = self.level;
            let va = self.va;
            let node = self.guards[(level - 1) as usize].unwrap();
            proof {
                old(self).lemma_query_item_covers(mem, fm);
                lemma_page_size_values();
                assert(self.guards@[level - 1] is Some);
                assert(mem.node_wf(fm, frame_of(node.page.raw)));
            }
            let idx = pte_index(va, level);
            let child = node.page.get_child(mem, idx);
            proof {
                let rec = mem.node(node.page.raw);
                assert(mem.child_ok(fm, rec.table@[idx as int], rec.meta.level, rec.meta.is_tracked));
            }
            match child {
                Child::PageTable(pt) => {
                    let pt = *pt;
                    proof {
                        assert(mem.node_wf(fm, frame_of(pt.raw)));
                    }
                    self.push_level(mem, pt.lock());
                },
                Child::Empty => {
                    return Ok(PageTableItem::NotMapped { va, len: page_size(level) });
                },
                Child::Frame(page, prop) => {
                    let ghost fm0 = *fm;
                    proof {
                        page.lemma_slot_ok_bounds(fm);
                    }
                    let page = page.clone(fm);
                    proof {
                        super::node::lemma_inc_keeps_in_use(&fm0, fm, page.index());
                        mem.lemma_wf_fm(&fm0, fm);
                    }
                    return Ok(PageTableItem::Mapped { va, page, prop: *prop });
                },
                Child::Untracked(pa, _, prop) => {
                    return Ok(PageTableItem::MappedUntracked { va, pa: *pa, len: page_size(level), prop: *prop });
                },
            }
        }
    }
}

impl<M: PageTableMode, E: PageTableEntryTrait> Cursor<M, E> {
    /// The cursor stays well formed when the memory changes only at frame
    /// `k`, which holds no node above the current level.
    pub proof fn lemma_wf_mem_change(&self, mem1: &PageTableMem<E>, mem2: &PageTableMem<E>, k: int)
        requires
            self.wf(mem1),
            0 <= k < mem1.nodes@.len(),
            mem1.same_except(mem2, k),
            mem1.nodes@[k] is Some ==> (mem1.nodes@[k]->Some_0).meta.level <= self.level,
        ensures
            self.wf(mem2),
    {
        assert forall|l: int| self.level <= l <= self.guard_level implies {
            &&& #[trigger] self.guards@[l - 1] is Some
            &&& self.guard_at(l).level == l
            &&& mem2.is_node(self.guard_at(l).raw, l)
        } by {
            assert(self.guards@[l - 1] is Some);
            let f = frame_of(self.guard_at(l).raw);
            if f != k {
                assert(mem2.nodes@[f] == mem1.nodes@[f]);
            }
        }
        assert forall|l: int| self.level <= l < self.guard_level implies #[trigger] mem2.node(self.guard_at(l + 1).raw).table@[pte_index_spec(self.va, l + 1) as int]
            == Child::PageTable(self.guard_at(l)) by {
            assert(self.guards@[l] is Some);
            assert(self.guards@[l - 1] is Some);
            assert(mem1.node(self.guard_at(l + 1).raw).table@[pte_index_spec(self.va, l + 1) as int]
                == Child::PageTable(self.guard_at(l)));
            let f = frame_of(self.guard_at(l + 1).raw);
            assert(mem1.is_node(self.guard_at(l + 1).raw, l + 1));
            assert(f != k);
            assert(mem2.nodes@[f] == mem1.nodes@[f]);
        }
    }
}

/// The cursor of a page table that can map, unmap and protect.
#[derive(Debug)]
pub struct CursorMut<M: PageTableMode, E: PageTableEntryTrait>(pub Cursor<M, E>);

impl<M: PageTableMode, E: PageTableEntryTrait> CursorMut<M, E> {
    /// Creates a cursor claiming write access to the given range; it fails
    /// as [`Cursor::new`] does.
    #[verifier::rlimit(40)]
    #[verifier::spinoff_prover]
    pub fn new(pt: &PageTable<M, E>, mem: &PageTableMem<E>, fm: &FrameManager, va: &Range<Vaddr>) -> (r: Result<Self, PageTableError>)
        requires
            fm.wf(),
            mem.wf(fm),
            pt.wf(mem),
            range_ok::<M>(*va) ==> descent_ok(mem, pt.root.raw, NR_LEVELS as int, va.start, va.end),
        ensures
            !(M::range_start() <= va.start && va.end <= M::range_end()) || va.start >= va.end
                ==> r == Err::<Self, PageTableError>(PageTableError::InvalidVaddrRange(va.start, va.end)),
            M::range_start() <= va.start && va.end <= M::range_end() && va.start < va.end && !(va.start
                % BASE_PAGE_SIZE == 0 && va.end % BASE_PAGE_SIZE == 0)
                ==> r == Err::<Self, PageTableError>(PageTableError::UnalignedVaddr),
            range_ok::<M>(*va) ==> r is Ok,
            match r {
                Ok(c) => {
                    &&& c.0.wf(mem)
                    &&& c.0.va == va.start
                    &&& c.0.barrier_va == *va
                    &&& c.0.level == c.0.guard_level
                    &&& c.0.root == pt.root
                    &&& (c.0.guard_node().raw, c.0.guard_level as int) == guard_of(mem, pt.root.raw, NR_LEVELS as int, va.start, va.end)
                    &&& forall|v: Vaddr| va.start <= v < va.end ==> #[trigger] c.0.in_guard_range(v) && pt.lookup_spec(mem, v)
                        == c.0.view(mem, v)
                },
                Err(_) => true,
            },
    {
        match Cursor::new(pt, mem, fm, va) {
            Ok(inner) => {
                let c = CursorMut(inner);
                proof {
                    assert(c.0 == inner);
                    assert(inner.wf(mem));
                    assert(c.0.wf(mem));
                    assert(c.0.va == va.start && c.0.barrier_va == *va && c.0.level == c.0.guard_level && c.0.root == pt.root);
                    assert forall|v: Vaddr| va.start <= v < va.end implies #[trigger] c.0.in_guard_range(v) && pt.lookup_spec(mem, v)
                        == c.0.view(mem, v) by {
                        assert(inner.in_guard_range(v));
                    }
                    assert((c.0.guard_node().raw, c.0.guard_level as int) == guard_of(mem, pt.root.raw, NR_LEVELS as int, va.start, va.end));
                }
                Ok(c)
            },
            Err(e) => Err(e),
        }
    }

    /// Jumps to the given virtual address, as [`Cursor::jump`] does.
    pub fn jump(&mut self, mem: &PageTableMem<E>, va: Vaddr) -> (r: Result<(), PageTableError>)
        requires
            old(self).0.wf(mem),
            va % BASE_PAGE_SIZE == 0,
        ensures
            final(self).0.wf(mem),
            final(self).0.same_frame(&old(self).0),
            !(old(self).0.barrier_va.start <= va < old(self).0.barrier_va.end) ==> {
                &&& r == Err::<(), PageTableError>(PageTableError::InvalidVaddr(va))
                &&& *final(self) == *old(self)
            },
            old(self).0.barrier_va.start <= va < old(self).0.barrier_va.end ==> r is Ok && final(self).0.va == va,
    {
        self.0.jump(mem, va)
    }

    /// The virtual address that the cursor points to.
    pub fn virt_addr(&self) -> (r: Vaddr)
        ensures
            r == self.0.va,
    {
        self.0.virt_addr()
    }

    /// Gets the information of the current slot, as [`Cursor::query`] does.
    pub fn query(&mut self, mem: &PageTableMem<E>, fm: &mut FrameManager) -> (r: Result<PageTableItem, PageTableError>)
        requires
            old(self).0.wf(mem),
            old(fm).wf(),
            mem.wf(old(fm)),
            match old(self).0.view(mem, old(self).0.va).0 {
                Child::Frame(f, _) => old(fm).ref_count_of(f.index()) < REF_COUNT_MAX,
                _ => true,
            },
        ensures
            final(self).0.wf(mem),
            final(self).0.same_frame(&old(self).0),
            final(self).0.va == old(self).0.va,
            final(fm).wf(),
            mem.wf(final(fm)),
            old(self).0.va >= old(self).0.barrier_va.end ==> {
                &&& r == Err::<PageTableItem, PageTableError>(PageTableError::InvalidVaddr(old(self).0.va))
                &&& *final(fm) == *old(fm)
            },
            old(self).0.va < old(self).0.barrier_va.end ==> match r {
                Ok(PageTableItem::NotMapped { va, len }) => {
                    &&& va == old(self).0.va
                    &&& len == 0x1000 || len == 0x20_0000 || len == 0x4000_0000 || len == 0x80_0000_0000
                    &&& forall|u: Vaddr| u as int / len as int == va as int / len as int
                        ==> #[trigger] translate(old(self).0.view(mem, u), u) is None
                },
                Ok(PageTableItem::MappedUntracked { va, pa, len, prop }) => {
                    &&& va == old(self).0.va
                    &&& len == 0x1000 || len == 0x20_0000 || len == 0x4000_0000 || len == 0x80_0000_0000
                    &&& forall|u: Vaddr| u as int / len as int == va as int / len as int
                        ==> #[trigger] translate(old(self).0.view(mem, u), u) == Some(((pa + u as int % len as int) as Paddr, prop))
                },
                Ok(PageTableItem::Mapped { va, page, prop }) => {
                    &&& va == old(self).0.va
                    &&& forall|u: Vaddr| u as int / 4096 == va as int / 4096
                        ==> #[trigger] translate(old(self).0.view(mem, u), u) == Some(((page.paddr() + u as int % 4096) as Paddr, prop))
                },
                Err(_) => false,
            },
            old(self).0.va < old(self).0.barrier_va.end ==> {
                &&& r == Ok::<PageTableItem, PageTableError>(item_of(old(self).0.view(mem, old(self).0.va), old(self).0.va))
                &&& match old(self).0.view(mem, old(self).0.va).0 {
                    Child::Frame(f, _) => final(fm).ref_counts() == old(fm).ref_counts().update(
                        f.index(),
                        (old(fm).ref_count_of(f.index()) + 1) as u32,
                    ),
                    _ => *final(fm) == *old(fm),
                }
            },
    {
        self.0.query(mem, fm)
    }
}

/// The number of nodes that mapping a base page allocates when the walk
/// ends at `leaf`: one per missing level.
pub open spec fn map_allocs(leaf: (Child, int)) -> nat {
    if leaf.0 is Empty {
        (leaf.1 - 1) as nat
    } else {
        0
    }
}

/// A frame in use stays valid when a free frame is allocated.
pub proof fn lemma_valid_after_alloc(page: Frame<Unknown>, fm1: &FrameManager, fm2: &FrameManager, k: int)
    requires
        fm1.wf(),
        page.valid(fm1),
        fm1.is_free(k as usize),
        0 <= k < fm1.nr_frames(),
        fm2.ref_counts() == fm1.ref_counts().update(k, 1),
    ensures
        page.valid(fm2),
{
    page.lemma_slot_ok_bounds(fm1);
    page.lemma_slot_ok_same_frames(fm1, fm2);
    assert(page.index() != k);
}

impl<M: PageTableMode, E: PageTableEntryTrait> CursorMut<M, E> {
    /// The leaf that the walk from the current node finds at the current
    /// address.
    pub open spec fn cur_leaf(&self, mem: &PageTableMem<E>) -> (Child, int) {
        mem.lookup(self.0.cur_node().raw, self.0.level as int, self.0.va)
    }

    /// Whether mapping a tracked base page at the current address meets no
    /// untracked mapping and lands in a node that maps tracked pages.
    pub open spec fn map_ok(&self, mem: &PageTableMem<E>) -> bool {
        let leaf = self.cur_leaf(mem);
        let node = mem.leaf_node(self.0.cur_node().raw, self.0.level as int, self.0.va);
        &&& !(leaf.0 is Untracked)
        &&& (leaf.0 is Empty && leaf.1 > 1) || mem.node(node).meta.is_tracked == MapTrackingStatus::TrackedPages
    }

    /// Maps the base frame `page` with `prop` at the current address,
    /// creating the missing nodes on the way down; returns the frame that was
    /// mapped there before, if any. The cursor moves to the next page.
    ///
    /// Mapping past the cursor's range, over a huge page or over untracked
    /// mappings panics (excluded here).
    pub fn map(&mut self, mem: &mut PageTableMem<E>, fm: &mut FrameManager, page: Frame<Unknown>, prop: PageProperty) -> (r: Option<Frame<Unknown>>)
        requires
            old(self).0.wf(old(mem)),
            old(fm).wf(),
            old(mem).wf(old(fm)),
            page.valid(old(fm)),
            old(self).0.va + PAGE_SIZE <= old(self).0.barrier_va.end,
            old(self).map_ok(old(mem)),
            old(fm).can_alloc(map_allocs(old(self).cur_leaf(old(mem)))),
        ensures
            final(self).0.wf(final(mem)),
            final(self).0.same_frame(&old(self).0),
            final(self).0.va == old(self).0.va + PAGE_SIZE,
            final(fm).wf(),
            final(mem).wf(final(fm)),
            final(fm).nr_frames() == old(fm).nr_frames(),
            final(self).0.view(final(mem), old(self).0.va) == (Child::Frame(page, prop), 1int),
            r == (match old(self).0.view(old(mem), old(self).0.va).0 {
                Child::Frame(f, _) => Some(f),
                _ => None::<Frame<Unknown>>,
            }),
            forall|u: Vaddr| old(self).0.in_guard_range(u) && !(old(self).0.va <= u < old(self).0.va + PAGE_SIZE)
                ==> #[trigger] translate(final(self).0.view(final(mem), u), u) == translate(old(self).0.view(old(mem), u), u),
            old(mem).nodes_kept(final(mem)),
            old(self).0.view(old(mem), old(self).0.va).0 is Empty ==> only_fills(old(mem), final(mem)),
            forall|pa: Paddr, l: int, u: Vaddr| 1 <= l <= NR_LEVELS && old(mem).is_node(pa, l)
                && old(mem).node(pa).prefix@ == range_number(u as int, l)
                && range_number(u as int, 0) != range_number(old(self).0.va as int, 0)
                ==> #[trigger] translate(final(mem).lookup(pa, l, u), u) == translate(old(mem).lookup(pa, l, u), u),
            subtree_tracked(old(mem), old(self).0.guard_node().raw, old(self).0.guard_level as int)
                ==> subtree_tracked(final(mem), old(self).0.guard_node().raw, old(self).0.guard_level as int),
            forall|n: nat| old(fm).can_alloc(n + map_allocs(old(self).cur_leaf(old(mem)))) ==> #[trigger] final(fm).can_alloc(n),
            forall|i: int| 0 <= i < old(fm).nr_frames() && #[trigger] old(fm).in_use(i) ==> final(fm).ref_count_of(i) == old(fm).ref_count_of(i),
    {
        let end = self.0.va + page.size();
        let ghost old_leaf = old(self).0.view(old(mem), old(self).0.va);
        proof {
            old(self).0.lemma_view_at_cur(old(mem), old(self).0.level as int);
            mem.lemma_wf_shape(fm);
        }
        loop
            invariant
                self.0.wf(mem),
                self.0.same_frame(&old(self).0),
                self.0.va == old(self).0.va,
                end == self.0.va + PAGE_SIZE,
                end <= self.0.barrier_va.end,
                fm.wf(),
                mem.wf(fm),
                mem.shape_ok(),
                page.valid(fm),
                fm.nr_frames() == old(fm).nr_frames(),
                self.map_ok(mem),
                fm.can_alloc(map_allocs(self.cur_leaf(mem))),
                self.0.view(mem, self.0.va) == self.cur_leaf(mem),
                self.cur_leaf(mem) == old_leaf || (self.cur_leaf(mem).0 is Empty && old_leaf.0 is Empty),
                forall|u: Vaddr| old(self).0.in_guard_range(u)
                    ==> #[trigger] translate(old(self).0.view(mem, u), u) == translate(old(self).0.view(old(mem), u), u),
                old(mem).nodes_kept(mem),
                old_leaf.0 is Empty ==> only_fills(old(mem), mem),
                forall|pa: Paddr, l: int, u: Vaddr| 1 <= l <= NR_LEVELS && old(mem).is_node(pa, l)
                    && old(mem).node(pa).prefix@ == range_number(u as int, l)
                    ==> #[trigger] translate(mem.lookup(pa, l, u), u) == translate(old(mem).lookup(pa, l, u), u),
                subtree_tracked(old(mem), old(self).0.guard_node().raw, old(self).0.guard_level as int)
                    ==> subtree_tracked(mem, old(self).0.guard_node().raw, old(self).0.guard_level as int),
                forall|n: nat| #[trigger] old(fm).can_alloc(n) && n >= map_allocs(old_leaf)
                    ==> fm.can_alloc((n - map_allocs(old_leaf) + map_allocs(self.cur_leaf(mem))) as nat),
                map_allocs(self.cur_leaf(mem)) <= map_allocs(old_leaf),
                forall|i: int| 0 <= i < old(fm).nr_frames() && #[trigger] old(fm).in_use(i) ==> fm.ref_count_of(i) == old(fm).ref_count_of(i),
            ensures
                self.0.level == 1,
            decreases self.0.level,
        {
            proof {
                lemma_page_size_values();
            }
            let size = page_size(self.0.level);
            if !(self.0.level > HIGHEST_TRANSLATION_LEVEL || self.0.va % size != 0 || size > end - self.0.va) {
                break;
            }
            let cur_level = self.0.level;
            let cur_entry = self.0.cur_entry(mem);
            let node = cur_entry.node;
            proof {
                assert(self.0.guards@[cur_level - 1] is Some);
                assert(mem.node_wf(fm, frame_of(node.page.raw)));
                let rec = mem.node(node.page.raw);
                assert(mem.child_ok(fm, rec.table@[cur_entry.idx as int], rec.meta.level, rec.meta.is_tracked));
                assert(cur_level > 1);
            }
            let ghost mem0 = *mem;
            let ghost fm0 = *fm;
            let ghost c0 = self.0;
            match node.page.get_child(mem, cur_entry.idx) {
                Child::PageTable(pt) => {
                    let pt = *pt;
                    self.0.push_level(mem, pt.lock());
                },
                Child::Empty => {
                    let pt = RawPageTableNode::alloc_empty_pt(
                        cur_level - 1,
                        MapTrackingStatus::TrackedPages,
                        Ghost(mem.node(node.page.raw).prefix@ * 512 + cur_entry.idx),
                        mem,
                        fm,
                    );
                    proof {
                        lemma_valid_after_alloc(page, &fm0, fm, frame_of(pt.raw));
                        self.0.lemma_wf_mem_change(&mem0, mem, frame_of(pt.raw));
                    }
                    let ghost mem1 = *mem;
                    let _ = cur_entry.replace(mem, fm, Child::PageTable(pt));
                    proof {
                        self.0.lemma_wf_mem_change(&mem1, mem, frame_of(node.page.raw));
                        assert(mem.nodes@[frame_of(pt.raw)] == mem1.nodes@[frame_of(pt.raw)]);
                        mem.lemma_wf_shape(fm);
                        let k = frame_of(node.page.raw);
                        let idx = cur_entry.idx as int;
                        assert(mem0.node_wf(&fm0, k));
                        lemma_fresh_entry_changed(&mem0, &mem1, frame_of(pt.raw), k, idx);
                        lemma_replaced_entry_changed(&mem1, mem, node.page.raw, idx, Child::PageTable(pt), mem.pte(node.page.raw, idx));
                        lemma_entry_changed_trans(&mem0, &mem1, mem, k, idx);
                        assert forall|i: int| 0 <= i < 512 implies #[trigger] mem.node(pt.raw).table@[i] is Empty by {
                            assert(mem.node(pt.raw).table@[i] == mem1.node(pt.raw).table@[i]);
                        }
                        c0.lemma_alloc_keeps_translation(&mem0, mem, &fm0, pt);
                        assert(mem.same_except2(&mem0, k, frame_of(pt.raw)));
                        if subtree_tracked(old(mem), old(self).0.guard_node().raw, old(self).0.guard_level as int) {
                            assert(c0.guards@[c0.guard_level - 1] is Some);
                            assert(mem.node(pt.raw) == mem1.node(pt.raw));
                            lemma_subtree_tracked_kept(&mem0, mem, &fm0, node.page.raw, idx, pt.raw, c0.guard_node().raw, c0.guard_level as int);
                        }
                        assert forall|n: nat| #[trigger] old(fm).can_alloc(n) && n >= map_allocs(old_leaf)
                            implies fm.can_alloc((n - map_allocs(old_leaf) + map_allocs(mem0.lookup(node.page.raw, cur_level as int, c0.va)) - 1) as nat) by {
                            assert(fm0.can_alloc((n - map_allocs(old_leaf) + map_allocs(mem0.lookup(node.page.raw, cur_level as int, c0.va)) - 1 + 1) as nat));
                        }
                        assert forall|i: int| 0 <= i < old(fm).nr_frames() && #[trigger] old(fm).in_use(i)
                            implies fm.ref_count_of(i) == old(fm).ref_count_of(i) by {
                            assert(fm0.ref_count_of(i) == old(fm).ref_count_of(i));
                            assert(i != frame_of(pt.raw));
                        }
                        mem0.lemma_same_except2_kept(mem, k, frame_of(pt.raw));
                        old(mem).lemma_nodes_kept_trans(&mem0, mem);
                        if old_leaf.0 is Empty {
                            lemma_entry_changed_fills(&mem0, mem, k, idx);
                            lemma_only_fills_trans(old(mem), &mem0, mem);
                        }
                        assert forall|pa: Paddr, l: int, u: Vaddr| 1 <= l <= NR_LEVELS && old(mem).is_node(pa, l)
                            && old(mem).node(pa).prefix@ == range_number(u as int, l)
                            implies #[trigger] translate(mem.lookup(pa, l, u), u) == translate(old(mem).lookup(pa, l, u), u) by {
                            assert(old(mem).nodes@[frame_of(pa)] is Some);
                            old(mem).lemma_kept_is_node(&mem0, pa, l);
                            lemma_alloc_keeps_walk_translation(&mem0, mem, &fm0, node.page.raw, idx, pt, pa, l, u);
                            assert(translate(mem0.lookup(pa, l, u), u) == translate(old(mem).lookup(pa, l, u), u));
                        }
                    }
                    self.0.push_level(mem, pt.lock());
                    proof {
                        assert(mem.node(pt.raw).table@[pte_index_spec(self.0.va, self.0.level as int) as int] is Empty) by {
                            lemma_page_size_values();
                        }
                    }
                },
                _ => {
                    proof {
                        assert(false);
                    }
                },
            }
            proof {
                self.0.lemma_view_at_cur(mem, self.0.level as int);
                assert forall|u: Vaddr| old(self).0.in_guard_range(u)
                    implies #[trigger] translate(old(self).0.view(mem, u), u) == translate(old(self).0.view(old(mem), u), u) by {
                    assert(c0.in_guard_range(u));
                    assert(translate(old(self).0.view(&mem0, u), u) == translate(old(self).0.view(old(mem), u), u));
                }
            }
        }
        proof {
            lemma_page_size_values();
            assert(self.0.level == 1);
            assert(self.0.guards@[0] is Some);
            assert(mem.node_wf(fm, frame_of(self.0.cur_node().raw)));
            page.lemma_slot_ok_bounds(fm);
        }
        let ghost mem2 = *mem;
        let ghost exit_allocs = map_allocs(self.cur_leaf(mem));
        let entry = self.0.cur_entry(mem);
        let old_child = entry.replace(mem, fm, Child::Frame(page, prop));
        proof {
            self.0.lemma_wf_mem_change(&mem2, mem, frame_of(self.0.cur_node().raw));
            self.0.lemma_view_at_cur(mem, 1);
            assert(self.0.view(mem, self.0.va) == (Child::Frame(page, prop), 1int));
            assert(self.0.next_slot_va() == self.0.va + PAGE_SIZE);
            let k = frame_of(self.0.cur_node().raw);
            let idx = entry.idx as int;
            assert(mem2.node_wf(fm, k));
            lemma_replaced_entry_changed(&mem2, mem, self.0.cur_node().raw, idx, Child::Frame(page, prop), mem.pte(self.0.cur_node().raw, idx));
            assert forall|u: Vaddr| old(self).0.in_guard_range(u) && !(old(self).0.va <= u < old(self).0.va + PAGE_SIZE)
                implies #[trigger] translate(old(self).0.view(mem, u), u) == translate(old(self).0.view(old(mem), u), u) by {
                lemma_in_slot(self.0.va, u, self.0.va as int, ps(1));
                assert(self.0.in_guard_range(u));
                self.0.lemma_view_outside_slot(&mem2, mem, fm, u);
                assert(translate(old(self).0.view(&mem2, u), u) == translate(old(self).0.view(old(mem), u), u));
            }
            mem2.lemma_same_except_kept(mem, k);
            old(mem).lemma_nodes_kept_trans(&mem2, mem);
            if subtree_tracked(old(mem), old(self).0.guard_node().raw, old(self).0.guard_level as int) {
                assert(self.0.guards@[self.0.guard_level - 1] is Some);
                lemma_same_except_to2(&mem2, mem, k);
                lemma_subtree_tracked_kept(&mem2, mem, fm, self.0.cur_node().raw, idx, self.0.cur_node().raw, self.0.guard_node().raw, self.0.guard_level as int);
            }
            if old_leaf.0 is Empty {
                assert(mem2.node(self.0.cur_node().raw).table@[idx] is Empty);
                lemma_entry_changed_fills(&mem2, mem, k, idx);
                lemma_only_fills_trans(old(mem), &mem2, mem);
            }
            self.0.lemma_path_prefix(&mem2, fm, 1);
            lemma_range_number_step(self.0.va, 1);
            assert forall|pa: Paddr, l: int, u: Vaddr| 1 <= l <= NR_LEVELS && old(mem).is_node(pa, l)
                && old(mem).node(pa).prefix@ == range_number(u as int, l)
                && range_number(u as int, 0) != range_number(old(self).0.va as int, 0)
                implies #[trigger] translate(mem.lookup(pa, l, u), u) == translate(old(mem).lookup(pa, l, u), u) by {
                assert(old(mem).nodes@[frame_of(pa)] is Some);
                old(mem).lemma_kept_is_node(&mem2, pa, l);
                lemma_lookup_entry_changed(&mem2, mem, fm, k, idx, pa, l, u);
                assert(translate(mem2.lookup(pa, l, u), u) == translate(old(mem).lookup(pa, l, u), u));
            }
        }
        self.0.move_forward(mem);
        proof {
            assert forall|u: Vaddr| old(self).0.in_guard_range(u) && !(old(self).0.va <= u < old(self).0.va + PAGE_SIZE)
                implies #[trigger] translate(self.0.view(mem, u), u) == translate(old(self).0.view(old(mem), u), u) by {
                assert(translate(old(self).0.view(mem, u), u) == translate(old(self).0.view(old(mem), u), u));
            }
            assert forall|n: nat| old(fm).can_alloc(n + map_allocs(old(self).cur_leaf(old(mem)))) implies #[trigger] fm.can_alloc(n) by {
                let m = n + map_allocs(old_leaf);
                assert(old(fm).can_alloc(m as nat));
                lemma_can_alloc_fewer(fm, (m - map_allocs(old_leaf) + exit_allocs) as nat, n);
            }
        }
        match old_child {
            Child::Frame(old_page, _) => Some(old_page),
            _ => None,
        }
    }
}

impl<M: PageTableMode, E: PageTableEntryTrait> Cursor<M, E> {
    /// The cursor stays well formed when the memory changes only at frames
    /// `k1` and `k2`, which hold no node above the current level.
    pub proof fn lemma_wf_mem_change2(&self, mem1: &PageTableMem<E>, mem2: &PageTableMem<E>, k1: int, k2: int)
        requires
            self.wf(mem1),
            mem2.same_except2(mem1, k1, k2),
            0 <= k1 < mem1.nodes@.len() && mem1.nodes@[k1] is Some ==> (mem1.nodes@[k1]->Some_0).meta.level <= self.level,
            0 <= k2 < mem1.nodes@.len() && mem1.nodes@[k2] is Some ==> (mem1.nodes@[k2]->Some_0).meta.level <= self.level,
        ensures
            self.wf(mem2),
    {
        assert forall|l: int| self.level <= l <= self.guard_level implies {
            &&& #[trigger] self.guards@[l - 1] is Some
            &&& self.guard_at(l).level == l
            &&& mem2.is_node(self.guard_at(l).raw, l)
        } by {
            assert(self.guards@[l - 1] is Some);
            let f = frame_of(self.guard_at(l).raw);
            assert(mem1.nodes@[f] is Some);
        }
        assert forall|l: int| self.level <= l < self.guard_level implies #[trigger] mem2.node(self.guard_at(l + 1).raw).table@[pte_index_spec(self.va, l + 1) as int]
            == Child::PageTable(self.guard_at(l)) by {
            assert(self.guards@[l] is Some);
            assert(self.guards@[l - 1] is Some);
            assert(mem1.node(self.guard_at(l + 1).raw).table@[pte_index_spec(self.va, l + 1) as int]
                == Child::PageTable(self.guard_at(l)));
            let f = frame_of(self.guard_at(l + 1).raw);
            assert(mem1.is_node(self.guard_at(l + 1).raw, l + 1));
            assert(f != k1 && f != k2);
            assert(mem2.nodes@[f] == mem1.nodes@[f]);
        }
    }

    /// Moves the cursor to `va`, a page-aligned address of the range or its
    /// end, climbing up until the current node covers it.
    fn relocate(&mut self, mem: &PageTableMem<E>, va: Vaddr)
        requires
            old(self).wf(mem),
            va % BASE_PAGE_SIZE == 0,
            old(self).barrier_va.start <= va <= old(self).barrier_va.end,
        ensures
            final(self).wf(mem),
            final(self).same_frame(old(self)),
            final(self).va == va,
    {
        proof {
            if va < self.barrier_va.end {
                self.lemma_barrier_in_guard(va);
            }
        }
        loop
            invariant
                self.wf(mem),
                self.same_frame(old(self)),
                self.barrier_va.start <= va <= self.barrier_va.end,
                va < self.barrier_va.end ==> self.in_guard_range(va),
                va % BASE_PAGE_SIZE == 0,
            decreases self.guard_level - self.level,
        {
            if self.level == self.guard_level {
                self.va = va;
                return;
            }
            proof {
                lemma_page_size_values();
            }
            let node_size = page_size(self.level + 1);
            proof {
                lemma_page_size_step(self.level + 1);
            }
            let cur_node_start = align_down(self.va, node_size);
            proof {
                lemma_in_slot(self.va, va, cur_node_start as int, node_size as int);
            }
            if cur_node_start <= va && va - cur_node_start < node_size {
                let ghost old_va = self.va;
                self.va = va;
                proof {
                    assert forall|l: int| self.level <= l < self.guard_level implies #[trigger] mem.node(self.guard_at(l + 1).raw).table@[pte_index_spec(self.va, l + 1) as int]
                        == Child::PageTable(self.guard_at(l)) by {
                        assert(self.guards@[l - 1] is Some);
                        assert(mem.node(self.guard_at(l + 1).raw).table@[pte_index_spec(old_va, l + 1) as int]
                            == Child::PageTable(self.guard_at(l)));
                        lemma_same_prefix_above(va, old_va, self.level + 1, l + 1);
                    }
                }
                return;
            }
            self.pop_level(mem);
        }
    }
}

/// Being able to allocate some frames means being able to allocate fewer.
pub proof fn lemma_can_alloc_fewer(fm: &FrameManager, n: nat, m: nat)
    requires
        fm.can_alloc(n),
        m <= n,
    ensures
        fm.can_alloc(m),
{
    assert(m * crate::mm::frame::allocator::PAGE_SIZE_BYTES <= n * crate::mm::frame::allocator::PAGE_SIZE_BYTES) by (nonlinear_arith)
        requires m <= n;
}

impl<M: PageTableMode, E: PageTableEntryTrait> CursorMut<M, E> {
    /// Finds and removes the first mapped page in the `len` bytes from the
    /// current address, and returns it. The cursor moves past the removed
    /// page, or to the end of the `len` bytes when nothing is mapped there,
    /// in which case `NotMapped` is returned. Untracked huge pages that the
    /// bytes cover only partly are split on the way.
    ///
    /// A length that is not page aligned, a range past the cursor's range
    /// and running out of memory for splitting panic (excluded here).
    pub fn take_next(&mut self, mem: &mut PageTableMem<E>, fm: &mut FrameManager, len: u64) -> (r: PageTableItem)
        requires
            old(self).0.wf(old(mem)),
            old(fm).wf(),
            old(mem).wf(old(fm)),
            len % PAGE_SIZE == 0,
            old(self).0.va + len <= old(self).0.barrier_va.end,
            old(fm).can_alloc((NR_LEVELS - 1) as nat) || forall|u: Vaddr| old(self).0.va <= u < old(self).0.va + len
                && (forall|w: Vaddr| old(self).0.va <= w < u ==> #[trigger] translate(old(self).0.view(old(mem), w), w) is None)
                ==> !splits_leaf(#[trigger] old(self).0.view(old(mem), u), u as int, old(self).0.va + len),
        ensures
            final(self).0.wf(final(mem)),
            final(self).0.same_frame(&old(self).0),
            final(fm).wf(),
            final(mem).wf(final(fm)),
            final(fm).nr_frames() == old(fm).nr_frames(),
            match r {
                PageTableItem::NotMapped { va, len: l } => {
                    &&& va == old(self).0.va
                    &&& l == len
                    &&& final(self).0.va == old(self).0.va + len
                    &&& forall|u: Vaddr| old(self).0.in_guard_range(u)
                        ==> #[trigger] translate(final(self).0.view(final(mem), u), u) == translate(old(self).0.view(old(mem), u), u)
                    &&& forall|u: Vaddr| old(self).0.va <= u < old(self).0.va + len
                        ==> #[trigger] translate(old(self).0.view(old(mem), u), u) is None
                },
                PageTableItem::Mapped { va, page, prop } => {
                    &&& old(self).0.va <= va
                    &&& va + PAGE_SIZE <= old(self).0.va + len
                    &&& final(self).0.va == va + PAGE_SIZE
                    &&& page.valid(final(fm))
                    &&& old(self).0.view(old(mem), va) == (Child::Frame(page, prop), 1int)
                    &&& final(self).0.view(final(mem), va) == (Child::Empty, 1int)
                    &&& translate(old(self).0.view(old(mem), va), va) == Some((page.paddr(), prop))
                    &&& forall|u: Vaddr| old(self).0.in_guard_range(u) && !(va <= u < va + PAGE_SIZE)
                        ==> #[trigger] translate(final(self).0.view(final(mem), u), u) == translate(old(self).0.view(old(mem), u), u)
                    &&& forall|u: Vaddr| old(self).0.va <= u < va
                        ==> #[trigger] translate(old(self).0.view(old(mem), u), u) is None
                },
                PageTableItem::MappedUntracked { va, pa, len: l, prop } => {
                    &&& old(self).0.va <= va
                    &&& l > 0
                    &&& va + l <= old(self).0.va + len
                    &&& final(self).0.va == va + l
                    &&& old(self).0.view(old(mem), va).0 is Untracked
                    &&& l <= ps(old(self).0.view(old(mem), va).1)
                    &&& va as int % ps(old(self).0.view(old(mem), va).1) == 0
                        && va + ps(old(self).0.view(old(mem), va).1) <= old(self).0.va + len
                        ==> l == ps(old(self).0.view(old(mem), va).1)
                    &&& final(self).0.view(final(mem), va).0 is Empty
                    &&& translate(old(self).0.view(old(mem), va), va) == Some((pa, prop))
                    &&& forall|u: Vaddr| old(self).0.in_guard_range(u) && !(va <= u < va + l)
                        ==> #[trigger] translate(final(self).0.view(final(mem), u), u) == translate(old(self).0.view(old(mem), u), u)
                    &&& forall|u: Vaddr| old(self).0.va <= u < va
                        ==> #[trigger] translate(old(self).0.view(old(mem), u), u) is None
                },
            },
    {
        let start = self.0.va;
        let end = start + len;
        let ghost mut split = false;
        proof {
            mem.lemma_wf_shape(fm);
            assert(end % 4096 == 0) by (nonlinear_arith)
                requires start % 4096 == 0, len % 4096 == 0, end == start + len;
        }
        while self.0.va < end
            invariant
                self.0.wf(mem),
                self.0.same_frame(&old(self).0),
                fm.wf(),
                mem.wf(fm),
                mem.shape_ok(),
                fm.nr_frames() == old(fm).nr_frames(),
                start == old(self).0.va,
                end == start + len,
                end <= self.0.barrier_va.end,
                len % PAGE_SIZE == 0,
                start <= self.0.va <= end,
                split ==> fm.can_alloc((self.0.level - 1) as nat),
                !split ==> *fm == *old(fm),
                old(fm).can_alloc((NR_LEVELS - 1) as nat) || forall|u: Vaddr| start <= u < end
                    && (forall|w: Vaddr| start <= w < u ==> #[trigger] translate(old(self).0.view(old(mem), w), w) is None)
                    ==> !splits_leaf(#[trigger] old(self).0.view(old(mem), u), u as int, end as int),
                split ==> mem.node(self.0.cur_node().raw).table@[pte_index_spec(self.0.va, self.0.level as int) as int] is Untracked,
                !split ==> *mem == *old(mem),
                split ==> old(self).0.view(old(mem), self.0.va).0 is Untracked,
                split ==> self.0.level < old(self).0.view(old(mem), self.0.va).1,
                split ==> !(self.0.va as int % ps(old(self).0.view(old(mem), self.0.va).1) == 0
                    && self.0.va + ps(old(self).0.view(old(mem), self.0.va).1) <= end),
                end % PAGE_SIZE == 0,
                forall|u: Vaddr| old(self).0.in_guard_range(u)
                    ==> #[trigger] translate(old(self).0.view(mem, u), u) == translate(old(self).0.view(old(mem), u), u),
                forall|u: Vaddr| start <= u < self.0.va
                    ==> #[trigger] translate(old(self).0.view(old(mem), u), u) is None,
            ensures
                self.0.va == end,
                forall|u: Vaddr| old(self).0.in_guard_range(u)
                    ==> #[trigger] translate(old(self).0.view(mem, u), u) == translate(old(self).0.view(old(mem), u), u),
                forall|u: Vaddr| start <= u < end
                    ==> #[trigger] translate(old(self).0.view(old(mem), u), u) is None,
            decreases end - self.0.va, self.0.level,
        {
            proof {
                lemma_page_size_values();
            }
            let cur_va = self.0.va;
            let cur_level = self.0.level;
            let cur_entry = self.0.cur_entry(mem);
            let node = cur_entry.node;
            let size = page_size(cur_level);
            proof {
                assert(self.0.guards@[cur_level - 1] is Some);
                assert(mem.node_wf(fm, frame_of(node.page.raw)));
                let rec = mem.node(node.page.raw);
                assert(mem.child_ok(fm, rec.table@[cur_entry.idx as int], rec.meta.level, rec.meta.is_tracked));
                assert(super::node::entry_matches(mem.ptes@[frame_of(node.page.raw)]@[cur_entry.idx as int], rec.table@[cur_entry.idx as int], rec.meta.level));
            }
            let ghost cs = self.0;
            proof {
                vstd::arithmetic::div_mod::lemma_mod_bound(cur_va as int, size as int);
            }
            if cur_entry.is_none() {
                if size - cur_va % size >= end - cur_va {
                    self.0.relocate(mem, end);
                    proof {
                        assert forall|u: Vaddr| start <= u < self.0.va
                            implies #[trigger] translate(old(self).0.view(old(mem), u), u) is None by {
                            if u >= cur_va {
                                cs.lemma_skipped_unmapped(mem, fm, u);
                                assert(translate(old(self).0.view(mem, u), u) == translate(old(self).0.view(old(mem), u), u));
                            }
                        }
                    }
                    break;
                }
                self.0.move_forward(mem);
                proof {
                    assert forall|u: Vaddr| start <= u < self.0.va
                        implies #[trigger] translate(old(self).0.view(old(mem), u), u) is None by {
                        if u >= cur_va {
                            cs.lemma_skipped_unmapped(mem, fm, u);
                            assert(translate(old(self).0.view(mem, u), u) == translate(old(self).0.view(old(mem), u), u));
                        }
                    }
                }
                continue;
            }
            if cur_entry.is_node() || cur_va % size != 0 || size > end - cur_va {
                let ghost mem0 = *mem;
                let ghost fm0 = *fm;
                let ghost c0 = self.0;
                match node.page.get_child(mem, cur_entry.idx) {
                    Child::PageTable(pt) => {
                        let pt = *pt;
                        let pt = pt.lock();
                        proof {
                            assert(mem.node_wf(fm, frame_of(pt.page.raw)));
                        }
                        if pt.nr_children(mem) != 0 {
                            self.0.push_level(mem, pt);
                        } else {
                            if size - cur_va % size >= end - cur_va {
                                self.0.relocate(mem, end);
                            proof {
                                assert forall|u: Vaddr| start <= u < self.0.va
                                    implies #[trigger] translate(old(self).0.view(old(mem), u), u) is None by {
                                    if u >= cur_va {
                                        cs.lemma_skipped_unmapped(mem, fm, u);
                                        assert(translate(old(self).0.view(mem, u), u) == translate(old(self).0.view(old(mem), u), u));
                                    }
                                }
                            }
                                break;
                            }
                            self.0.move_forward(mem);
                        proof {
                            assert forall|u: Vaddr| start <= u < self.0.va
                                implies #[trigger] translate(old(self).0.view(old(mem), u), u) is None by {
                                if u >= cur_va {
                                    cs.lemma_skipped_unmapped(mem, fm, u);
                                    assert(translate(old(self).0.view(mem, u), u) == translate(old(self).0.view(old(mem), u), u));
                                }
                            }
                        }
                        }
                    },
                    Child::Untracked(_, _, _) => {
                        proof {
                            if split {
                                assert(fm.can_alloc((cur_level - 1) as nat));
                                lemma_can_alloc_fewer(fm, (cur_level - 1) as nat, 1);
                            } else {
                                if !old(fm).can_alloc((NR_LEVELS - 1) as nat) {
                                    self.0.lemma_view_at_cur(mem, cur_level as int);
                                    let leaf = old(self).0.view(old(mem), cur_va);
                                    assert(leaf.0 is Untracked && leaf.1 == cur_level);
                                    assert(cur_level > 1) by {
                                        if cur_level == 1 {
                                            vstd::arithmetic::div_mod::lemma_fundamental_div_mod(cur_va as int, 4096);
                                            vstd::arithmetic::div_mod::lemma_fundamental_div_mod(end as int, 4096);
                                        }
                                    }
                                    assert(splits_leaf(leaf, cur_va as int, end as int));
                                    assert(false);
                                }
                                lemma_can_alloc_fewer(fm, (NR_LEVELS - 1) as nat, 1);
                            }
                        }
                        let split_child = cur_entry.split_if_untracked_huge(mem, fm);
                        let child = split_child.unwrap();
                        proof {
                            self.0.lemma_wf_mem_change2(&mem0, mem, frame_of(node.page.raw), frame_of(child.page.raw));
                            mem.lemma_wf_shape(fm);
                            assert(mem.node_wf(fm, frame_of(child.page.raw)));
                            if split {
                                assert(fm0.can_alloc(((cur_level - 2) + 1) as nat));
                                assert(fm.can_alloc((cur_level - 2) as nat));
                            } else {
                                assert(fm0.can_alloc((2 + 1) as nat));
                                assert(fm.can_alloc(2));
                                lemma_can_alloc_fewer(fm, 2, (cur_level - 2) as nat);
                            }
                            if !split {
                                c0.lemma_view_at_cur(&mem0, cur_level as int);
                                assert(old(self).0.view(old(mem), cur_va) == c0.view(&mem0, cur_va));
                            }
                            split = true;
                            let k = frame_of(node.page.raw);
                            let idx = cur_entry.idx as int;
                            lemma_split_entry_changed(&mem0, mem, k, frame_of(child.page.raw), idx, Child::PageTable(child.page));
                            c0.lemma_split_keeps_translation(&mem0, mem, &fm0, child.page);
                        }
                        self.0.push_level(mem, child);
                        proof {
                            lemma_page_size_values();
                            assert(mem.node(child.page.raw).table@[pte_index_spec(self.0.va, self.0.level as int) as int] is Untracked);
                            assert forall|u: Vaddr| old(self).0.in_guard_range(u)
                                implies #[trigger] translate(old(self).0.view(mem, u), u) == translate(old(self).0.view(old(mem), u), u) by {
                                assert(c0.in_guard_range(u));
                                assert(translate(old(self).0.view(&mem0, u), u) == translate(old(self).0.view(old(mem), u), u));
                            }
                        }
                    },
                    _ => {
                        proof {
                            assert(false);
                        }
                    },
                }
                continue;
            }
            let ghost mem1 = *mem;
            let ghost c1 = self.0;
            proof {
                self.0.lemma_view_at_cur(mem, cur_level as int);
            }
            proof {
                if !split {
                    assert(old(self).0.view(old(mem), cur_va) == self.0.view(&mem1, cur_va));
                }
                if split {
                    lemma_page_size_mono(cur_level as int, old(self).0.view(old(mem), cur_va).1);
                }
            }
            let old_child = cur_entry.replace(mem, fm, Child::Empty);
            proof {
                self.0.lemma_wf_mem_change(&mem1, mem, frame_of(node.page.raw));
                self.0.lemma_view_at_cur(mem, cur_level as int);
                assert(self.0.next_slot_va() == cur_va + size) by {
                    vstd::arithmetic::div_mod::lemma_fundamental_div_mod(cur_va as int, size as int);
                }
                let rec = mem1.node(node.page.raw);
                assert(mem1.child_ok(fm, rec.table@[cur_entry.idx as int], rec.meta.level, rec.meta.is_tracked));
                let k = frame_of(node.page.raw);
                let idx = cur_entry.idx as int;
                assert(mem1.node_wf(fm, k));
                lemma_replaced_entry_changed(&mem1, mem, node.page.raw, idx, Child::Empty, mem.pte(node.page.raw, idx));
                assert forall|u: Vaddr| old(self).0.in_guard_range(u) && !(cur_va <= u < cur_va + size)
                    implies #[trigger] translate(old(self).0.view(mem, u), u) == translate(old(self).0.view(old(mem), u), u) by {
                    lemma_in_slot(cur_va, u, cur_va as int, size as int);
                    assert(c1.in_guard_range(u));
                    c1.lemma_view_outside_slot(&mem1, mem, fm, u);
                    assert(translate(old(self).0.view(&mem1, u), u) == translate(old(self).0.view(old(mem), u), u));
                }
                vstd::arithmetic::div_mod::lemma_fundamental_div_mod(cur_va as int, size as int);
                assert(page_offset(cur_va, cur_level as int) == 0);
                assert(translate(old(self).0.view(old(mem), cur_va), cur_va) == translate(old(self).0.view(&mem1, cur_va), cur_va));
            }
            self.0.move_forward(mem);
            proof {
                assert forall|u: Vaddr| old(self).0.in_guard_range(u) && !(cur_va <= u < cur_va + size)
                    implies #[trigger] translate(self.0.view(mem, u), u) == translate(old(self).0.view(old(mem), u), u) by {
                    assert(translate(old(self).0.view(mem, u), u) == translate(old(self).0.view(old(mem), u), u));
                }
            }
            return match old_child {
                Child::Frame(page, prop) => PageTableItem::Mapped { va: cur_va, page, prop },
                Child::Untracked(pa, level, prop) => {
                    PageTableItem::MappedUntracked { va: cur_va, pa, len: page_size(level), prop }
                },
                _ => {
                    proof {
                        assert(false);
                    }
                    PageTableItem::NotMapped { va: start, len }
                },
            };
        }
        proof {
            assert forall|u: Vaddr| old(self).0.in_guard_range(u)
                implies #[trigger] translate(self.0.view(mem, u), u) == translate(old(self).0.view(old(mem), u), u) by {
                assert(translate(old(self).0.view(mem, u), u) == translate(old(self).0.view(old(mem), u), u));
            }
        }
        PageTableItem::NotMapped { va: start, len }
    }
}

/// The start of the slot after the one of `va` in slots of `size` bytes, a
/// whole number of base pages, is a base-page boundary.
proof fn lemma_next_slot_aligned(va: int, size: int)
    requires
        va >= 0,
        size >= 4096,
        size % 4096 == 0,
    ensures
        (va - va % size + size) % 4096 == 0,
{
    vstd::arithmetic::div_mod::lemma_fundamental_div_mod(va, size);
    let q = va / size;
    let k = size / 4096;
    vstd::arithmetic::div_mod::lemma_fundamental_div_mod(size, 4096);
    assert(va - va % size + size == 4096 * (k * (q + 1))) by (nonlinear_arith)
        requires va == size * q + va % size, size == 4096 * k;
    vstd::arithmetic::div_mod::lemma_mod_multiples_basic(k * (q + 1), 4096);
    vstd::arithmetic::mul::lemma_mul_is_commutative(k * (q + 1), 4096);
}

/// A page of any level is a whole number of base pages.
proof fn lemma_ps_multiple_of_base(l: int)
    requires
        1 <= l <= NR_LEVELS,
    ensures
        ps(l) % 4096 == 0,
        ps(l) >= 4096,
{
    lemma_page_size_values();
    lemma_page_size_mono(1, l);
    assert(l == 1 || l == 2 || l == 3 || l == 4);
}

/// The property of a mapped leaf child.
pub open spec fn prop_of(c: Child) -> PageProperty {
    match c {
        Child::Frame(_, p) => p,
        Child::Untracked(_, _, p) => p,
        _ => arbitrary(),
    }
}

impl<M: PageTableMode, E: PageTableEntryTrait> CursorMut<M, E> {
    /// Applies `op` to the property of the first mapped page in the `len`
    /// bytes from the current address, and returns the range of that page.
    /// The cursor moves past the page, or to the end of the `len` bytes
    /// (rounded up to a whole page) when nothing is mapped there, in which
    /// case `None` is returned. Untracked huge pages that the bytes cover
    /// only partly are split on the way.
    ///
    /// A range past the cursor's range panics (excluded here), and so does
    /// one whose first mapped page is a base page that the bytes cover only
    /// partly, or running out of memory for splitting.
    #[verifier::rlimit(100)]
    #[verifier::spinoff_prover]
    pub fn protect_next<F: Fn(PageProperty) -> PageProperty>(
        &mut self,
        mem: &mut PageTableMem<E>,
        fm: &mut FrameManager,
        len: u64,
        op: &F,
    ) -> (r: Option<Range<Vaddr>>)
        requires
            old(self).0.wf(old(mem)),
            old(fm).wf(),
            old(mem).wf(old(fm)),
            old(self).0.va + len <= old(self).0.barrier_va.end,
            old(self).0.barrier_va.end % PAGE_SIZE == 0,
            old(self).0.barrier_va.end + ps(old(self).0.guard_level as int) <= u64::MAX + 1,
            ({
                let e = old(self).0.va + len;
                let e_down = e - e % (PAGE_SIZE as int);
                e % (PAGE_SIZE as int) != 0 && (forall|u: Vaddr| old(self).0.va <= u < e_down
                    ==> #[trigger] translate(old(self).0.view(old(mem), u), u) is None)
                    ==> translate(old(self).0.view(old(mem), e_down as Vaddr), e_down as Vaddr) is None
            }),
            old(fm).can_alloc((NR_LEVELS - 1) as nat) || forall|u: Vaddr| old(self).0.va <= u < old(self).0.va + len
                && (forall|w: Vaddr| old(self).0.va <= w < u ==> #[trigger] translate(old(self).0.view(old(mem), w), w) is None)
                ==> !splits_leaf(#[trigger] old(self).0.view(old(mem), u), u as int, old(self).0.va + len),
            forall|p: PageProperty| #[trigger] op.requires((p,)),
        ensures
            final(self).0.wf(final(mem)),
            final(self).0.same_frame(&old(self).0),
            final(fm).wf(),
            final(mem).wf(final(fm)),
            final(fm).nr_frames() == old(fm).nr_frames(),
            forall|n: nat| old(fm).can_alloc(n + (NR_LEVELS - 1) as nat) ==> #[trigger] final(fm).can_alloc(n),
            old(mem).nodes_kept(final(mem)),
            nodes_above_kept(old(mem), final(mem), old(self).0.guard_level as int),
            match r {
                None => {
                    &&& final(self).0.va == if (old(self).0.va + len) % (PAGE_SIZE as int) == 0 {
                        old(self).0.va + len
                    } else {
                        old(self).0.va + len - (old(self).0.va + len) % (PAGE_SIZE as int) + PAGE_SIZE
                    }
                    &&& forall|u: Vaddr| old(self).0.in_guard_range(u)
                        ==> #[trigger] translate(final(self).0.view(final(mem), u), u) == translate(old(self).0.view(old(mem), u), u)
                    &&& forall|u: Vaddr| old(self).0.va <= u < old(self).0.va + len
                        ==> #[trigger] translate(old(self).0.view(old(mem), u), u) is None
                },
                Some(range) => {
                    let leaf = final(self).0.view(final(mem), range.start);
                    let before = old(self).0.view(old(mem), range.start);
                    &&& leaf.1 <= before.1
                    &&& range.start as int % ps(leaf.1) == 0
                    &&& forall|l: int| leaf.1 < l <= before.1
                        ==> !(range.start as int % ps(l) == 0 && range.start + ps(l) <= old(self).0.va + len)
                    &&& forall|u: Vaddr| old(self).0.va <= u < range.start
                        ==> #[trigger] translate(old(self).0.view(old(mem), u), u) is None
                    &&& old(self).0.va <= range.start
                    &&& range.end <= old(self).0.va + len
                    &&& range.end == range.start + ps(leaf.1)
                    &&& final(self).0.va == range.end
                    &&& (leaf.0 is Frame || leaf.0 is Untracked)
                    &&& exists|q: PageProperty| op.ensures((q,), #[trigger] prop_of(leaf.0))
                    &&& forall|u: Vaddr| old(self).0.in_guard_range(u) && !(range.start <= u < range.end)
                        ==> #[trigger] translate(final(self).0.view(final(mem), u), u) == translate(old(self).0.view(old(mem), u), u)
                    &&& forall|u: Vaddr| range.start <= u < range.end ==> {
                        &&& #[trigger] translate(old(self).0.view(old(mem), u), u) is Some
                        &&& translate(final(self).0.view(final(mem), u), u)
                            == Some(((translate(old(self).0.view(old(mem), u), u)->Some_0).0, prop_of(leaf.0)))
                        &&& op.ensures(((translate(old(self).0.view(old(mem), u), u)->Some_0).1,), prop_of(leaf.0))
                    }
                },
            },
    {
        let end = self.0.va + len;
        let ghost mut split = false;
        let ghost mut hl: int = 0;
        let ghost s0 = self.0.va;
        proof {
            mem.lemma_wf_shape(fm);
            lemma_page_size_values();
            assert(ps(self.0.guard_level as int) >= 4096) by {
                lemma_page_size_mono(1, self.0.guard_level as int);
            }
        }
        let end_up = align_up(end, PAGE_SIZE);
        let ghost end_down = end - end % 4096;
        while self.0.va < end
            invariant
                self.0.wf(mem),
                self.0.same_frame(&old(self).0),
                fm.wf(),
                mem.wf(fm),
                mem.shape_ok(),
                fm.nr_frames() == old(fm).nr_frames(),
                end == old(self).0.va + len,
                end_up == (if end % PAGE_SIZE == 0 { end as int } else { end - end % PAGE_SIZE + PAGE_SIZE }),
                end_down == end - end % 4096,
                end <= self.0.barrier_va.end,
                self.0.barrier_va.end % PAGE_SIZE == 0,
                end_up <= self.0.barrier_va.end,
                self.0.barrier_va.end + ps(self.0.guard_level as int) <= u64::MAX + 1,
                old(self).0.va <= self.0.va <= end_up,
                self.0.va % PAGE_SIZE == 0,
                end % PAGE_SIZE != 0 && (forall|u: Vaddr| old(self).0.va <= u < end_down
                    ==> #[trigger] translate(old(self).0.view(old(mem), u), u) is None)
                    ==> translate(old(self).0.view(old(mem), end_down as Vaddr), end_down as Vaddr) is None,
                split ==> fm.can_alloc((self.0.level - 1) as nat),
                !split ==> *fm == *old(fm),
                old(fm).can_alloc((NR_LEVELS - 1) as nat) || forall|u: Vaddr| old(self).0.va <= u < end
                    && (forall|w: Vaddr| old(self).0.va <= w < u ==> #[trigger] translate(old(self).0.view(old(mem), w), w) is None)
                    ==> !splits_leaf(#[trigger] old(self).0.view(old(mem), u), u as int, end as int),
                split ==> mem.node(self.0.cur_node().raw).table@[pte_index_spec(self.0.va, self.0.level as int) as int] is Untracked,
                split ==> self.0.va < end,
                !split ==> *mem == *old(mem),
                split ==> self.0.level < hl && hl == old(self).0.view(old(mem), self.0.va).1,
                split ==> forall|l: int| self.0.level < l <= hl
                    ==> !(self.0.va as int % ps(l) == 0 && self.0.va + ps(l) <= end),
                forall|p: PageProperty| #[trigger] op.requires((p,)),
                forall|u: Vaddr| old(self).0.in_guard_range(u)
                    ==> #[trigger] translate(old(self).0.view(mem, u), u) == translate(old(self).0.view(old(mem), u), u),
                forall|n: nat| #[trigger] old(fm).can_alloc(n) && n >= 3
                    ==> fm.can_alloc((n - 3 + (if split { self.0.level - 1 } else { 3 })) as nat),
                split ==> self.0.level <= 3,
                old(mem).nodes_kept(mem),
                nodes_above_kept(old(mem), mem, old(self).0.guard_level as int),
                forall|u: Vaddr| old(self).0.va <= u < self.0.va
                    ==> #[trigger] translate(old(self).0.view(old(mem), u), u) is None,
            decreases (if self.0.va < end { end - self.0.va } else { 0 }), self.0.level,
        {
            proof {
                lemma_page_size_values();
            }
            let cur_va = self.0.va;
            let cur_level = self.0.level;
            let mut cur_entry = self.0.cur_entry(mem);
            let node = cur_entry.node;
            let size = page_size(cur_level);
            proof {
                assert(self.0.guards@[cur_level - 1] is Some);
                assert(mem.node_wf(fm, frame_of(node.page.raw)));
                let rec = mem.node(node.page.raw);
                assert(mem.child_ok(fm, rec.table@[cur_entry.idx as int], rec.meta.level, rec.meta.is_tracked));
                assert(super::node::entry_matches(mem.ptes@[frame_of(node.page.raw)]@[cur_entry.idx as int], rec.table@[cur_entry.idx as int], rec.meta.level));
                lemma_page_size_step(cur_level as int);
                assert(self.0.next_slot_va() < end + ps(self.0.guard_level as int)) by {
                    vstd::arithmetic::div_mod::lemma_fundamental_div_mod(cur_va as int, size as int);
                    assert(ps(cur_level as int) <= ps(self.0.guard_level as int)) by {
                        lemma_page_size_mono(cur_level as int, self.0.guard_level as int);
                    }
                }
            }
            let ghost cs = self.0;
            proof {
                vstd::arithmetic::div_mod::lemma_mod_bound(cur_va as int, size as int);
            }
            if cur_entry.is_none() {
                if size - cur_va % size >= end - cur_va {
                    proof {
                        vstd::arithmetic::div_mod::lemma_fundamental_div_mod(cur_va as int, size as int);
                        lemma_ps_multiple_of_base(cur_level as int);
                        lemma_next_slot_aligned(cur_va as int, size as int);
                        assert(cs.next_slot_va() >= end_up);
                    }
                    self.0.relocate(mem, end_up);
                    proof {
                        cs.lemma_prefix_unmapped_after_skip(old(self).0, old(mem), mem, fm, old(self).0.va, self.0.va as int);
                    }
                    continue;
                }
                self.0.move_forward(mem);
                proof {
                    cs.lemma_prefix_unmapped_after_skip(old(self).0, old(mem), mem, fm, old(self).0.va, self.0.va as int);
                }
                continue;
            }
            if cur_entry.is_node() {
                match node.page.get_child(mem, cur_entry.idx) {
                    Child::PageTable(pt) => {
                        let pt = *pt;
                        let pt = pt.lock();
                        proof {
                            assert(mem.node_wf(fm, frame_of(pt.page.raw)));
                        }
                        if pt.nr_children(mem) != 0 {
                            self.0.push_level(mem, pt);
                        } else if size - cur_va % size >= end - cur_va {
                            proof {
                                vstd::arithmetic::div_mod::lemma_fundamental_div_mod(cur_va as int, size as int);
                                lemma_ps_multiple_of_base(cur_level as int);
                                lemma_next_slot_aligned(cur_va as int, size as int);
                                assert(cs.next_slot_va() >= end_up);
                            }
                            self.0.relocate(mem, end_up);
                            proof {
                                cs.lemma_prefix_unmapped_after_skip(old(self).0, old(mem), mem, fm, old(self).0.va, self.0.va as int);
                            }
                        } else {
                            self.0.move_forward(mem);
                            proof {
                                cs.lemma_prefix_unmapped_after_skip(old(self).0, old(mem), mem, fm, old(self).0.va, self.0.va as int);
                            }
                        }
                    },
                    _ => {
                        proof {
                            assert(false);
                        }
                    },
                }
                continue;
            }
            if cur_va % size != 0 || size > end - cur_va {
                let ghost mem0 = *mem;
                let ghost fm0 = *fm;
                let ghost c0 = self.0;
                proof {
                    if cur_level == 1 {
                        vstd::arithmetic::div_mod::lemma_fundamental_div_mod(cur_va as int, 4096);
                        vstd::arithmetic::div_mod::lemma_fundamental_div_mod(end as int, 4096);
                        assert(cur_va == end_down);
                        self.0.lemma_view_at_cur(mem, 1);
                        assert(self.0.in_guard_range(cur_va));
                        assert(translate(old(self).0.view(mem, cur_va), cur_va) is Some);
                        assert(translate(old(self).0.view(old(mem), cur_va), cur_va) is Some);
                        assert(false);
                    }
                    assert(cur_level > 1);
                    if split {
                        lemma_can_alloc_fewer(fm, (cur_level - 1) as nat, 1);
                    } else {
                        if !old(fm).can_alloc((NR_LEVELS - 1) as nat) {
                            self.0.lemma_view_at_cur(mem, cur_level as int);
                            let leaf = old(self).0.view(old(mem), cur_va);
                            assert(leaf.0 is Untracked && leaf.1 == cur_level);
                            assert(splits_leaf(leaf, cur_va as int, end as int));
                            assert(false);
                        }
                        lemma_can_alloc_fewer(fm, (NR_LEVELS - 1) as nat, 1);
                    }
                }
                let split_child = cur_entry.split_if_untracked_huge(mem, fm);
                let child = split_child.unwrap();
                proof {
                    self.0.lemma_wf_mem_change2(&mem0, mem, frame_of(node.page.raw), frame_of(child.page.raw));
                    mem.lemma_wf_shape(fm);
                    assert(mem.node_wf(fm, frame_of(child.page.raw)));
                    if split {
                        assert(fm0.can_alloc(((cur_level - 2) + 1) as nat));
                        assert(fm.can_alloc((cur_level - 2) as nat));
                    } else {
                        assert(fm0.can_alloc((2 + 1) as nat));
                        assert(fm.can_alloc(2));
                        lemma_can_alloc_fewer(fm, 2, (cur_level - 2) as nat);
                    }
                    let ghost was_split = split;
                    if !was_split {
                        c0.lemma_view_at_cur(&mem0, cur_level as int);
                        hl = cur_level as int;
                    }
                    split = true;
                    let k = frame_of(node.page.raw);
                    let idx = cur_entry.idx as int;
                    lemma_split_entry_changed(&mem0, mem, k, frame_of(child.page.raw), idx, Child::PageTable(child.page));
                    c0.lemma_split_keeps_translation(&mem0, mem, &fm0, child.page);
                    mem0.lemma_same_except2_kept(mem, k, frame_of(child.page.raw));
                    old(mem).lemma_nodes_kept_trans(&mem0, mem);
                    lemma_nodes_above_kept_step(old(mem), &mem0, mem, old(self).0.guard_level as int, k, idx);
                    assert forall|n: nat| #[trigger] old(fm).can_alloc(n) && n >= 3
                        implies fm.can_alloc((n - 3 + (cur_level - 2)) as nat) by {
                        let q: int = if was_split { cur_level - 1 } else { 3 };
                        assert(fm0.can_alloc((n - 3 + q) as nat));
                        lemma_can_alloc_fewer(&fm0, (n - 3 + q) as nat, (n - 3 + (cur_level - 2) + 1) as nat);
                        assert(fm.can_alloc((n - 3 + (cur_level - 2)) as nat));
                    }
                }
                self.0.push_level(mem, child);
                proof {
                    lemma_page_size_values();
                    assert(mem.node(child.page.raw).table@[pte_index_spec(self.0.va, self.0.level as int) as int] is Untracked);
                    assert forall|u: Vaddr| old(self).0.in_guard_range(u)
                        implies #[trigger] translate(old(self).0.view(mem, u), u) == translate(old(self).0.view(old(mem), u), u) by {
                        assert(c0.in_guard_range(u));
                        assert(translate(old(self).0.view(&mem0, u), u) == translate(old(self).0.view(old(mem), u), u));
                    }
                }
                continue;
            }
            let ghost mem1 = *mem;
            let ghost c1 = self.0;
            let ghost pte0 = cur_entry.pte;
            proof {
                if !split {
                    self.0.lemma_view_at_cur(mem, cur_level as int);
                    assert(old(self).0.view(old(mem), cur_va).1 == cur_level);
                }
                vstd::arithmetic::div_mod::lemma_mod_bound(cur_va as int, size as int);
            }
            cur_entry.protect(mem, fm, op);
            proof {
                self.0.lemma_wf_mem_change(&mem1, mem, frame_of(node.page.raw));
                self.0.lemma_view_at_cur(mem, cur_level as int);
                assert(self.0.next_slot_va() == cur_va + size) by {
                    vstd::arithmetic::div_mod::lemma_fundamental_div_mod(cur_va as int, size as int);
                }
                let c = mem1.node(node.page.raw).table@[cur_entry.idx as int];
                assert(c is Frame || c is Untracked);
                assert(op.ensures((mem1.pte(node.page.raw, cur_entry.idx as int).spec_prop(),), prop_of(super::node::with_prop(c, cur_entry.pte.spec_prop()))));
                let k = frame_of(node.page.raw);
                let idx = cur_entry.idx as int;
                assert(mem1.node_wf(fm, k));
                lemma_replaced_entry_changed(&mem1, mem, node.page.raw, idx, super::node::with_prop(c, cur_entry.pte.spec_prop()), cur_entry.pte);
                c1.lemma_protect_slot_translation(&mem1, mem, fm, c, cur_entry.pte.spec_prop());
                assert(prop_of(c) == pte0.spec_prop());
                mem1.lemma_same_except_kept(mem, k);
                old(mem).lemma_nodes_kept_trans(&mem1, mem);
                lemma_nodes_above_kept_step(old(mem), &mem1, mem, old(self).0.guard_level as int, k, idx);
            }
            let protected_va = self.0.va..self.0.va + size;
            self.0.move_forward(mem);
            proof {
                let leaf = self.0.view(mem, cur_va);
                assert(leaf == c1.view(mem, cur_va));
                assert(prop_of(leaf.0) == cur_entry.pte.spec_prop());
                assert forall|u: Vaddr| old(self).0.in_guard_range(u) && !(cur_va <= u < cur_va + size)
                    implies #[trigger] translate(self.0.view(mem, u), u) == translate(old(self).0.view(old(mem), u), u) by {
                    assert(c1.in_guard_range(u));
                    assert(c1.view(mem, u) == c1.view(&mem1, u));
                    assert(translate(old(self).0.view(&mem1, u), u) == translate(old(self).0.view(old(mem), u), u));
                }
                assert forall|u: Vaddr| cur_va <= u < cur_va + size implies {
                    &&& #[trigger] translate(old(self).0.view(old(mem), u), u) is Some
                    &&& translate(self.0.view(mem, u), u)
                        == Some(((translate(old(self).0.view(old(mem), u), u)->Some_0).0, prop_of(leaf.0)))
                    &&& op.ensures(((translate(old(self).0.view(old(mem), u), u)->Some_0).1,), prop_of(leaf.0))
                } by {
                    assert(c1.in_guard_range(u));
                    assert(translate(c1.view(&mem1, u), u) is Some);
                    assert(translate(old(self).0.view(&mem1, u), u) == translate(old(self).0.view(old(mem), u), u));
                }
                assert forall|n: nat| old(fm).can_alloc(n + (NR_LEVELS - 1) as nat) implies #[trigger] fm.can_alloc(n) by {
                    let m = (n + 3) as nat;
                    assert(old(fm).can_alloc(m));
                    let q: int = if split { cur_level - 1 } else { 3 };
                    lemma_can_alloc_fewer(fm, (m - 3 + q) as nat, n);
                }
            }
            return Some(protected_va);
        }
        proof {
            assert forall|u: Vaddr| old(self).0.in_guard_range(u)
                implies #[trigger] translate(self.0.view(mem, u), u) == translate(old(self).0.view(old(mem), u), u) by {
                assert(translate(old(self).0.view(mem, u), u) == translate(old(self).0.view(old(mem), u), u));
            }
            assert forall|n: nat| old(fm).can_alloc(n + (NR_LEVELS - 1) as nat) implies #[trigger] fm.can_alloc(n) by {
                let m = (n + 3) as nat;
                assert(old(fm).can_alloc(m));
                let q: int = if split { self.0.level - 1 } else { 3 };
                lemma_can_alloc_fewer(fm, (m - 3 + q) as nat, n);
            }
        }
        None
    }
}

/// Whether changing the property of the leaf met at `u`, for a range that
/// ends at `end`, first splits it: the leaf is an untracked huge page that
/// does not lie whole in the range from `u`.
pub open spec fn splits_leaf(leaf: (Child, int), u: int, end: int) -> bool {
    &&& leaf.0 is Untracked
    &&& leaf.1 > 1
    &&& !(u % ps(leaf.1) == 0 && u + ps(leaf.1) <= end)
}

/// Page sizes grow with the level.
pub proof fn lemma_page_size_mono(a: int, b: int)
    requires
        1 <= a <= b,
    ensures
        ps(a) <= ps(b),
    decreases b - a,
{
    if a < b {
        lemma_page_size_mono(a, b - 1);
        lemma_page_size_step(b - 1);
    }
}

/// Whether every node of level at most `HIGHEST_TRANSLATION_LEVEL` in the
/// subtree of the node at `pa` of `level` maps untracked pages: the subtree
/// allows mapping untracked physical memory.
pub open spec fn subtree_untracked<E: PageTableEntryTrait>(mem: &PageTableMem<E>, pa: Paddr, level: int) -> bool
    decreases level,
{
    &&& (level <= HIGHEST_TRANSLATION_LEVEL ==> mem.node(pa).meta.is_tracked == MapTrackingStatus::Untracked)
    &&& (level > 1 ==> forall|i: int| 0 <= i < 512 ==> match #[trigger] mem.node(pa).table@[i] {
        Child::PageTable(raw) => subtree_untracked(mem, raw.raw, level - 1),
        _ => true,
    })
}

/// Changing one entry of node `x` to a leaf or to a new node `f` that maps
/// untracked pages and has no child node keeps every subtree that allowed
/// untracked mappings allowing them.
pub proof fn lemma_subtree_untracked_kept<E: PageTableEntryTrait>(
    mem1: &PageTableMem<E>,
    mem2: &PageTableMem<E>,
    fm: &FrameManager,
    x: Paddr,
    i: int,
    f: Paddr,
    n: Paddr,
    l: int,
)
    requires
        fm.wf(),
        mem1.wf(fm),
        mem1.is_node(x, mem1.node(x).meta.level as int),
        mem1.nodes@[frame_of(x)] is Some,
        mem2.same_except2(mem1, frame_of(x), frame_of(f)),
        mem1.nodes@[frame_of(f)] is None || frame_of(f) == frame_of(x),
        frame_of(f) < mem1.nodes@.len(),
        mem2.node(x).meta.is_tracked == mem1.node(x).meta.is_tracked,
        mem2.node(x).table@ == mem1.node(x).table@.update(i, mem2.node(x).table@[i]),
        0 <= i < 512,
        match mem2.node(x).table@[i] {
            Child::PageTable(raw) => {
                &&& raw.raw == f
                &&& mem2.nodes@[frame_of(f)] is Some
                &&& mem2.node(f).meta.is_tracked == MapTrackingStatus::Untracked
                &&& forall|j: int| 0 <= j < 512 ==> !(#[trigger] mem2.node(f).table@[j] is PageTable)
            },
            _ => true,
        },
        mem1.is_node(n, l),
        subtree_untracked(mem1, n, l),
    ensures
        subtree_untracked(mem2, n, l),
    decreases l,
{
    let k = frame_of(n);
    assert(mem1.node_wf(fm, k));
    if k != frame_of(x) {
        assert(k != frame_of(f));
        assert(mem2.nodes@[k] == mem1.nodes@[k]);
    }
    if l > 1 {
        assert forall|j: int| 0 <= j < 512 implies match #[trigger] mem2.node(n).table@[j] {
            Child::PageTable(raw) => subtree_untracked(mem2, raw.raw, l - 1),
            _ => true,
        } by {
            let c2 = mem2.node(n).table@[j];
            let c1 = mem1.node(n).table@[j];
            if k == frame_of(x) && j == i {
                match c2 {
                    Child::PageTable(raw) => {
                        assert(subtree_untracked(mem2, raw.raw, l - 1)) by {
                            assert forall|jj: int| 0 <= jj < 512 implies match #[trigger] mem2.node(f).table@[jj] {
                                Child::PageTable(raw2) => subtree_untracked(mem2, raw2.raw, l - 2),
                                _ => true,
                            } by {
                                assert(!(mem2.node(f).table@[jj] is PageTable));
                            }
                        }
                    },
                    _ => {},
                }
            } else {
                assert(c2 == c1);
                assert(mem1.child_ok(fm, c1, mem1.node(n).meta.level, mem1.node(n).meta.is_tracked));
                match c1 {
                    Child::PageTable(raw) => {
                        assert(subtree_untracked(mem1, raw.raw, l - 1));
                        lemma_subtree_untracked_kept(mem1, mem2, fm, x, i, f, raw.raw, l - 1);
                    },
                    _ => {},
                }
            }
        }
    }
}

/// A change at one frame is a change at two frames, the same one twice.
pub proof fn lemma_same_except_to2<E: PageTableEntryTrait>(mem1: &PageTableMem<E>, mem2: &PageTableMem<E>, k: int)
    requires
        0 <= k < mem1.nodes@.len(),
        mem1.same_except(mem2, k),
    ensures
        mem2.same_except2(mem1, k, k),
{
    assert forall|j: int| 0 <= j < mem1.nodes@.len() && #[trigger] mem1.nodes@[j] is Some implies {
        &&& mem2.nodes@[j] is Some
        &&& (mem2.nodes@[j]->Some_0).meta.level == (mem1.nodes@[j]->Some_0).meta.level
    } by {
        if j != k {
            assert(mem2.nodes@[j] == mem1.nodes@[j]);
        }
    }
}

/// The number of base pages in the bytes from `va` to `end`, both page
/// aligned.
pub open spec fn pages_between(va: int, end: int) -> int {
    (end - va) / PAGE_SIZE as int
}

/// The frames that mapping physical memory may still allocate: three per
/// page still to map, less what the current level has already descended.
pub open spec fn map_pa_credit(va: int, end: int, level: int) -> nat {
    if va < end {
        (3 * (pages_between(va, end) - 1) + (level - 1)) as nat
    } else {
        0
    }
}

impl<M: PageTableMode, E: PageTableEntryTrait> Cursor<M, E> {
    /// Every node on the path allows untracked mappings below it.
    pub open spec fn path_untracked(&self, mem: &PageTableMem<E>) -> bool {
        forall|l: int| self.level <= l <= self.guard_level ==> #[trigger] subtree_untracked(mem, self.guard_at(l).raw, l)
    }
}

impl<M: PageTableMode, E: PageTableEntryTrait> CursorMut<M, E> {
    /// Maps the physical memory `pa` with `prop` from the current address,
    /// using pages as large as alignment allows, creating missing nodes and
    /// splitting untracked huge pages as needed. The cursor moves to the end
    /// of the mapped range.
    ///
    /// The range must be page aligned, fit the cursor's range, and lie where
    /// untracked mappings are allowed; otherwise, or when memory for nodes
    /// runs out, it panics (excluded here).
    pub fn map_pa(&mut self, mem: &mut PageTableMem<E>, fm: &mut FrameManager, pa: &Range<Paddr>, prop: PageProperty)
        requires
            old(self).0.wf(old(mem)),
            old(fm).wf(),
            old(mem).wf(old(fm)),
            pa.start <= pa.end,
            pa.start % PAGE_SIZE == 0,
            pa.end % PAGE_SIZE == 0,
            old(self).0.va + (pa.end - pa.start) <= old(self).0.barrier_va.end,
            subtree_untracked(old(mem), old(self).0.guard_node().raw, old(self).0.guard_level as int),
            old(fm).can_alloc((3 * ((pa.end - pa.start) / PAGE_SIZE as int)) as nat),
        ensures
            final(self).0.wf(final(mem)),
            final(self).0.same_frame(&old(self).0),
            final(self).0.va == old(self).0.va + (pa.end - pa.start),
            final(fm).wf(),
            final(mem).wf(final(fm)),
            final(fm).nr_frames() == old(fm).nr_frames(),
            old(mem).nodes_kept(final(mem)),
            nodes_above_kept(old(mem), final(mem), old(self).0.guard_level as int),
            forall|u: Vaddr| old(self).0.va <= u < old(self).0.va + (pa.end - pa.start)
                ==> #[trigger] translate(final(self).0.view(final(mem), u), u) == Some(((pa.start + (u - old(self).0.va)) as Paddr, prop)),
            forall|u: Vaddr| old(self).0.in_guard_range(u) && !(old(self).0.va <= u < old(self).0.va + (pa.end - pa.start))
                ==> #[trigger] translate(final(self).0.view(final(mem), u), u) == translate(old(self).0.view(old(mem), u), u),
    {
        let len = pa.end - pa.start;
        let end = self.0.va + len;
        let mut pa = pa.start;
        let ghost start = self.0.va;
        let ghost pa0 = pa;
        proof {
            mem.lemma_wf_shape(fm);
            assert(end % 4096 == 0) by (nonlinear_arith)
                requires start % 4096 == 0, len % 4096 == 0, end == start + len;
            lemma_path_untracked_init(&self.0, mem, fm, self.0.level as int);
            assert((end - start) / 4096 == len / 4096);
            if start < end {
                assert(len / 4096 >= 1) by (nonlinear_arith)
                    requires len % 4096 == 0, len > 0;
                lemma_can_alloc_fewer(fm, (3 * (len / 4096)) as nat, map_pa_credit(start as int, end as int, self.0.level as int));
            }
        }
        while self.0.va < end
            invariant
                self.0.wf(mem),
                self.0.same_frame(&old(self).0),
                fm.wf(),
                mem.wf(fm),
                mem.shape_ok(),
                fm.nr_frames() == old(fm).nr_frames(),
                start == old(self).0.va,
                end == start + len,
                end <= self.0.barrier_va.end,
                end % PAGE_SIZE == 0,
                start <= self.0.va <= end,
                pa == pa0 + (self.0.va - start),
                pa0 % PAGE_SIZE == 0,
                start % PAGE_SIZE == 0,
                pa0 + len <= u64::MAX,
                self.0.path_untracked(mem),
                fm.can_alloc(map_pa_credit(self.0.va as int, end as int, self.0.level as int)),
                old(mem).nodes_kept(mem),
                nodes_above_kept(old(mem), mem, old(self).0.guard_level as int),
                self.0.barrier_va.start <= start,
                forall|u: Vaddr| start <= u < self.0.va
                    ==> #[trigger] translate(old(self).0.view(mem, u), u) == Some(((pa0 + (u - start)) as Paddr, prop)),
                forall|u: Vaddr| old(self).0.in_guard_range(u) && !(start <= u < self.0.va)
                    ==> #[trigger] translate(old(self).0.view(mem, u), u) == translate(old(self).0.view(old(mem), u), u),
            decreases end - self.0.va, self.0.level,
        {
            proof {
                lemma_page_size_values();
            }
            let cur_level = self.0.level;
            let size = page_size(cur_level);
            let is_kernel_shared_node = M::is_kernel() && self.0.level >= NR_LEVELS - 1;
            let cur_entry = self.0.cur_entry(mem);
            let node = cur_entry.node;
            proof {
                assert(self.0.guards@[cur_level - 1] is Some);
                assert(mem.node_wf(fm, frame_of(node.page.raw)));
                let rec = mem.node(node.page.raw);
                assert(mem.child_ok(fm, rec.table@[cur_entry.idx as int], rec.meta.level, rec.meta.is_tracked));
                assert(subtree_untracked(mem, node.page.raw, cur_level as int));
                assert(end - self.0.va >= 4096) by (nonlinear_arith)
                    requires self.0.va % 4096 == 0, end % 4096 == 0, self.0.va < end;
                assert(pa % 4096 == 0) by (nonlinear_arith)
                    requires pa == pa0 + (self.0.va - start), pa0 % 4096 == 0, self.0.va % 4096 == 0, start % 4096 == 0;
            }
            if self.0.level > HIGHEST_TRANSLATION_LEVEL || is_kernel_shared_node || self.0.va % size != 0
                || size > end - self.0.va || pa % size != 0
            {
                let ghost mem0 = *mem;
                let ghost fm0 = *fm;
                let ghost c0 = self.0;
                proof {
                    assert(cur_level > 1);
                    assert(map_pa_credit(self.0.va as int, end as int, cur_level as int) >= 1);
                }
                match node.page.get_child(mem, cur_entry.idx) {
                    Child::PageTable(pt) => {
                        let pt = *pt;
                        proof {
                            assert(mem.node_wf(fm, frame_of(pt.raw)));
                        }
                        self.0.push_level(mem, pt.lock());
                        proof {
                            lemma_can_alloc_fewer(fm, map_pa_credit(self.0.va as int, end as int, cur_level as int), map_pa_credit(self.0.va as int, end as int, self.0.level as int));
                        }
                    },
                    Child::Empty => {
                        let new_pt = RawPageTableNode::alloc_empty_pt(
                            cur_level - 1,
                            MapTrackingStatus::Untracked,
                            Ghost(mem.node(node.page.raw).prefix@ * 512 + cur_entry.idx),
                            mem,
                            fm,
                        );
                        proof {
                            self.0.lemma_wf_mem_change(&mem0, mem, frame_of(new_pt.raw));
                        }
                        let ghost mem1 = *mem;
                        let _ = cur_entry.replace(mem, fm, Child::PageTable(new_pt));
                        proof {
                            self.0.lemma_wf_mem_change(&mem1, mem, frame_of(node.page.raw));
                            assert(mem.nodes@[frame_of(new_pt.raw)] == mem1.nodes@[frame_of(new_pt.raw)]);
                            mem.lemma_wf_shape(fm);
                            assert(mem.same_except2(&mem0, frame_of(node.page.raw), frame_of(new_pt.raw)));
                            mem0.lemma_same_except2_kept(mem, frame_of(node.page.raw), frame_of(new_pt.raw));
                            old(mem).lemma_nodes_kept_trans(&mem0, mem);
                            assert forall|l: int| self.0.level <= l <= self.0.guard_level implies #[trigger] subtree_untracked(mem, self.0.guard_at(l).raw, l) by {
                                assert(self.0.guards@[l - 1] is Some);
                                lemma_subtree_untracked_kept(&mem0, mem, &fm0, node.page.raw, cur_entry.idx as int, new_pt.raw, self.0.guard_at(l).raw, l);
                            }
                            let k = frame_of(node.page.raw);
                            let idx = cur_entry.idx as int;
                            lemma_fresh_entry_changed(&mem0, &mem1, frame_of(new_pt.raw), k, idx);
                            lemma_replaced_entry_changed(&mem1, mem, node.page.raw, idx, Child::PageTable(new_pt), mem.pte(node.page.raw, idx));
                            lemma_entry_changed_trans(&mem0, &mem1, mem, k, idx);
                            lemma_nodes_above_kept_step(old(mem), &mem0, mem, old(self).0.guard_level as int, k, idx);
                            assert forall|i: int| 0 <= i < 512 implies #[trigger] mem.node(new_pt.raw).table@[i] is Empty by {
                                assert(mem.node(new_pt.raw).table@[i] == mem1.node(new_pt.raw).table@[i]);
                            }
                            c0.lemma_alloc_keeps_translation(&mem0, mem, &fm0, new_pt);
                        }
                        self.0.push_level(mem, new_pt.lock());
                        proof {
                            assert(subtree_untracked(mem, new_pt.raw, self.0.level as int)) by {
                                assert forall|j: int| 0 <= j < 512 implies match #[trigger] mem.node(new_pt.raw).table@[j] {
                                    Child::PageTable(raw) => subtree_untracked(mem, raw.raw, self.0.level - 1),
                                    _ => true,
                                } by {
                                    assert(mem.node(new_pt.raw).table@[j] == mem1.node(new_pt.raw).table@[j]);
                                }
                            }
                        }
                    },
                    Child::Untracked(_, _, _) => {
                        let split_child = cur_entry.split_if_untracked_huge(mem, fm);
                        let child = split_child.unwrap();
                        proof {
                            self.0.lemma_wf_mem_change2(&mem0, mem, frame_of(node.page.raw), frame_of(child.page.raw));
                            mem.lemma_wf_shape(fm);
                            assert(mem.node_wf(fm, frame_of(child.page.raw)));
                            mem0.lemma_same_except2_kept(mem, frame_of(node.page.raw), frame_of(child.page.raw));
                            old(mem).lemma_nodes_kept_trans(&mem0, mem);
                            assert forall|l: int| self.0.level <= l <= self.0.guard_level implies #[trigger] subtree_untracked(mem, self.0.guard_at(l).raw, l) by {
                                assert(self.0.guards@[l - 1] is Some);
                                lemma_subtree_untracked_kept(&mem0, mem, &fm0, node.page.raw, cur_entry.idx as int, child.page.raw, self.0.guard_at(l).raw, l);
                            }
                            let k = frame_of(node.page.raw);
                            let idx = cur_entry.idx as int;
                            lemma_split_entry_changed(&mem0, mem, k, frame_of(child.page.raw), idx, Child::PageTable(child.page));
                            lemma_nodes_above_kept_step(old(mem), &mem0, mem, old(self).0.guard_level as int, k, idx);
                            c0.lemma_split_keeps_translation(&mem0, mem, &fm0, child.page);
                        }
                        self.0.push_level(mem, child);
                        proof {
                            assert(subtree_untracked(mem, child.page.raw, self.0.level as int)) by {
                                assert forall|j: int| 0 <= j < 512 implies match #[trigger] mem.node(child.page.raw).table@[j] {
                                    Child::PageTable(raw) => subtree_untracked(mem, raw.raw, self.0.level - 1),
                                    _ => true,
                                } by {
                                }
                            }
                        }
                    },
                    _ => {
                        proof {
                            assert(false);
                        }
                    },
                }
                proof {
                    assert(self.0.path_untracked(mem)) by {
                        assert forall|l: int| self.0.level <= l <= self.0.guard_level implies #[trigger] subtree_untracked(mem, self.0.guard_at(l).raw, l) by {
                            assert(self.0.guards@[l - 1] is Some);
                        }
                    }
                    assert forall|u: Vaddr| start <= u < self.0.va
                        implies #[trigger] translate(old(self).0.view(mem, u), u) == Some(((pa0 + (u - start)) as Paddr, prop)) by {
                        c0.lemma_barrier_in_guard(u);
                        assert(translate(old(self).0.view(&mem0, u), u) == Some(((pa0 + (u - start)) as Paddr, prop)));
                    }
                    assert forall|u: Vaddr| old(self).0.in_guard_range(u) && !(start <= u < self.0.va)
                        implies #[trigger] translate(old(self).0.view(mem, u), u) == translate(old(self).0.view(old(mem), u), u) by {
                        assert(c0.in_guard_range(u));
                        assert(translate(old(self).0.view(&mem0, u), u) == translate(old(self).0.view(old(mem), u), u));
                    }
                }
                continue;
            }
            let ghost mem1 = *mem;
            let ghost fm1 = *fm;
            let level = self.0.level;
            proof {
                assert(pa + size <= pa0 + len) by {
                    assert(self.0.va + size <= end);
                }
            }
            let _ = cur_entry.replace(mem, fm, Child::Untracked(pa, level, prop));
            proof {
                self.0.lemma_wf_mem_change(&mem1, mem, frame_of(node.page.raw));
                lemma_same_except_to2(&mem1, mem, frame_of(node.page.raw));
                mem1.lemma_same_except_kept(mem, frame_of(node.page.raw));
                old(mem).lemma_nodes_kept_trans(&mem1, mem);
                assert forall|l: int| self.0.level <= l <= self.0.guard_level implies #[trigger] subtree_untracked(mem, self.0.guard_at(l).raw, l) by {
                    assert(self.0.guards@[l - 1] is Some);
                    lemma_subtree_untracked_kept(&mem1, mem, &fm1, node.page.raw, cur_entry.idx as int, node.page.raw, self.0.guard_at(l).raw, l);
                }
                assert(self.0.next_slot_va() == self.0.va + size) by {
                    vstd::arithmetic::div_mod::lemma_fundamental_div_mod(self.0.va as int, size as int);
                }
                let k = frame_of(node.page.raw);
                let idx = cur_entry.idx as int;
                assert(mem1.node_wf(&fm1, k));
                lemma_replaced_entry_changed(&mem1, mem, node.page.raw, idx, Child::Untracked(pa, level, prop), mem.pte(node.page.raw, idx));
                lemma_nodes_above_kept_step(old(mem), &mem1, mem, old(self).0.guard_level as int, k, idx);
                self.0.lemma_map_slot_translation(&mem1, mem, &fm1, pa, prop);
            }
            let ghost c1 = self.0;
            let ghost pa_before = pa;
            pa = pa + size;
            let ghost va_before = self.0.va;
            self.0.move_forward(mem);
            proof {
                assert forall|u: Vaddr| start <= u < self.0.va
                    implies #[trigger] translate(old(self).0.view(mem, u), u) == Some(((pa0 + (u - start)) as Paddr, prop)) by {
                    if u < va_before {
                        c1.lemma_barrier_in_guard(u);
                        assert(c1.view(mem, u) == c1.view(&mem1, u));
                        assert(translate(old(self).0.view(&mem1, u), u) == Some(((pa0 + (u - start)) as Paddr, prop)));
                    } else {
                        assert(translate(c1.view(mem, u), u) == Some(((pa_before + (u - va_before)) as Paddr, prop)));
                    }
                }
                assert forall|u: Vaddr| old(self).0.in_guard_range(u) && !(start <= u < self.0.va)
                    implies #[trigger] translate(old(self).0.view(mem, u), u) == translate(old(self).0.view(old(mem), u), u) by {
                    assert(c1.in_guard_range(u));
                    assert(c1.view(mem, u) == c1.view(&mem1, u));
                    assert(translate(old(self).0.view(&mem1, u), u) == translate(old(self).0.view(old(mem), u), u));
                }
            }
            proof {
                assert(self.0.path_untracked(mem)) by {
                    assert forall|l: int| self.0.level <= l <= self.0.guard_level implies #[trigger] subtree_untracked(mem, self.0.guard_at(l).raw, l) by {
                        assert(self.0.guards@[l - 1] is Some);
                    }
                }
                lemma_map_pa_credit_step(va_before as int, self.0.va as int, end as int, cur_level as int, self.0.level as int, fm);
            }
        }
        proof {
            assert forall|u: Vaddr| start <= u < start + len
                implies #[trigger] translate(self.0.view(mem, u), u) == Some(((pa0 + (u - start)) as Paddr, prop)) by {
                assert(translate(old(self).0.view(mem, u), u) == Some(((pa0 + (u - start)) as Paddr, prop)));
            }
            assert forall|u: Vaddr| old(self).0.in_guard_range(u) && !(start <= u < start + len)
                implies #[trigger] translate(self.0.view(mem, u), u) == translate(old(self).0.view(old(mem), u), u) by {
                assert(translate(old(self).0.view(mem, u), u) == translate(old(self).0.view(old(mem), u), u));
            }
        }
    }
}

/// The path nodes of a cursor whose guard subtree allows untracked mappings
/// allow them too.
proof fn lemma_path_untracked_init<M: PageTableMode, E: PageTableEntryTrait>(c: &Cursor<M, E>, mem: &PageTableMem<E>, fm: &FrameManager, l: int)
    requires
        c.wf(mem),
        fm.wf(),
        mem.wf(fm),
        subtree_untracked(mem, c.guard_node().raw, c.guard_level as int),
        c.level <= l <= c.guard_level,
    ensures
        forall|m: int| l <= m <= c.guard_level ==> #[trigger] subtree_untracked(mem, c.guard_at(m).raw, m),
    decreases c.guard_level - l,
{
    if l < c.guard_level {
        lemma_path_untracked_init(c, mem, fm, l + 1);
        assert(c.guards@[l - 1] is Some);
        assert(c.guards@[l] is Some);
        assert(subtree_untracked(mem, c.guard_at(l + 1).raw, l + 1));
        let i = pte_index_spec(c.va, l + 1) as int;
        assert(0 <= i < 512) by {
            lemma_page_size_values();
        }
        assert(mem.node(c.guard_at(l + 1).raw).table@[i] == Child::PageTable(c.guard_at(l)));
    }
}

/// Mapping a page moves the cursor by at least one page, which pays for the
/// descents from whatever level the cursor climbs back to.
proof fn lemma_map_pa_credit_step(va: int, va2: int, end: int, level: int, level2: int, fm: &FrameManager)
    requires
        1 <= level <= level2 <= NR_LEVELS,
        va % 4096 == 0,
        va2 % 4096 == 0,
        end % 4096 == 0,
        va + 4096 <= va2 <= end,
        fm.can_alloc(map_pa_credit(va, end, level)),
    ensures
        fm.can_alloc(map_pa_credit(va2, end, level2)),
{
    if va2 < end {
        let p1 = pages_between(va, end);
        let p2 = pages_between(va2, end);
        assert(p2 <= p1 - 1) by (nonlinear_arith)
            requires
                p1 == (end - va) / 4096,
                p2 == (end - va2) / 4096,
                va + 4096 <= va2,
                va2 < end,
                va % 4096 == 0,
                va2 % 4096 == 0,
                end % 4096 == 0;
        assert(p2 >= 1) by (nonlinear_arith)
            requires p2 == (end - va2) / 4096, va2 < end, va2 % 4096 == 0, end % 4096 == 0;
        lemma_can_alloc_fewer(fm, map_pa_credit(va, end, level), map_pa_credit(va2, end, level2));
    } else {
        lemma_can_alloc_fewer(fm, map_pa_credit(va, end, level), 0);
    }
}

/// What is mapped is found again: after `map` put `page` with `prop` at
/// `va` (the cursor then points past it) and the cursor jumped back to
/// `va`, `query` reports `Mapped { va, page, prop }`, which translates each
/// address of the page to its offset in the frame.
pub proof fn lemma_map_then_query<M: PageTableMode, E: PageTableEntryTrait>(
    mapped: &Cursor<M, E>,
    back: &Cursor<M, E>,
    mem: &PageTableMem<E>,
    va: Vaddr,
    page: Frame<Unknown>,
    prop: PageProperty,
    off: u64,
)
    requires
        mapped.view(mem, va) == (Child::Frame(page, prop), 1int),
        back.same_frame(mapped),
        back.va == va,
        off < PAGE_SIZE,
    ensures
        item_of(back.view(mem, back.va), back.va) == (PageTableItem::Mapped { va, page, prop }),
        translate(back.view(mem, back.va), (va + off) as Vaddr) == Some(((page.paddr() + page_offset((va + off) as Vaddr, 1)) as Paddr, prop)),
{
}

/// Dropping the address bits above `d * c` does not change the index of
/// `d`-sized slots when `c` is a multiple of 512.
proof fn lemma_mod_div_index(u: int, d: int, c: int)
    requires
        0 <= u,
        d > 0,
        c > 0,
        c % 512 == 0,
    ensures
        ((u % (d * c)) / d) % 512 == (u / d) % 512,
{
    let m = d * c;
    assert(m > 0) by (nonlinear_arith)
        requires d > 0, c > 0, m == d * c;
    let q = u / m;
    let r = u % m;
    vstd::arithmetic::div_mod::lemma_fundamental_div_mod(u, m);
    vstd::arithmetic::div_mod::lemma_fundamental_div_mod(r, d);
    vstd::arithmetic::div_mod::lemma_mod_bound(r, d);
    vstd::arithmetic::div_mod::lemma_mod_bound(u, m);
    vstd::arithmetic::div_mod::lemma_div_pos_is_pos(r, d);
    vstd::arithmetic::div_mod::lemma_div_pos_is_pos(u, m);
    assert(u == (q * c + r / d) * d + r % d) by (nonlinear_arith)
        requires u == m * q + r, r == d * (r / d) + r % d, m == d * c;
    vstd::arithmetic::div_mod::lemma_fundamental_div_mod_converse(u, d, q * c + r / d, r % d);
    let c5 = c / 512;
    vstd::arithmetic::div_mod::lemma_fundamental_div_mod(c, 512);
    assert(q * c == (q * c5) * 512) by (nonlinear_arith)
        requires c == 512 * c5 + c % 512, c % 512 == 0;
    vstd::arithmetic::div_mod::lemma_mod_multiples_vanish(q * c5, r / d, 512);
}

/// The range number of the node one level down is the range number at the
/// level times 512 plus the index of the entry at the level.
pub proof fn lemma_range_number_step(u: Vaddr, l: int)
    requires
        1 <= l <= NR_LEVELS,
    ensures
        range_number(u as int, l - 1) == range_number(u as int, l) * 512 + pte_index_spec(u, l),
{
    lemma_page_size_values();
    let x = (u as int % 0x1_0000_0000_0000) as Vaddr;
    lemma_quot_split(x, l);
    lemma_page_size_step(l);
    let d = ps(l);
    let c: int = if l == 1 { 0x10_0000_0000 } else if l == 2 { 0x800_0000 } else if l == 3 { 0x4_0000 } else { 512 };
    assert(d * c == 0x1_0000_0000_0000);
    lemma_mod_div_index(u as int, d, c);
    assert(page_size_spec(l - 1 + 1) == ps(l));
}

/// Addresses in one 2^48-byte window are in the same range of a level
/// exactly when they are in the same slot of the level above.
pub proof fn lemma_range_number_same(a: Vaddr, b: Vaddr, l: int)
    requires
        1 <= l <= NR_LEVELS + 1,
        a as int / ps(NR_LEVELS + 1) == b as int / ps(NR_LEVELS + 1),
    ensures
        (range_number(a as int, l - 1) == range_number(b as int, l - 1)) == (a as int / ps(l) == b as int / ps(l)),
{
    lemma_page_size_values();
    let m: int = 0x1_0000_0000_0000;
    assert(ps(NR_LEVELS + 1) == m);
    let d = ps(l);
    let c: int = if l == 1 { 0x10_0000_0000 } else if l == 2 { 0x800_0000 } else if l == 3 { 0x4_0000 } else if l == 4 { 512 } else { 1 };
    assert(d * c == m);
    assert(page_size_spec(l - 1 + 1) == d);
    // x / d == (x / m) * c + (x % m) / d for both addresses.
    assert forall|x: int| 0 <= x implies #[trigger] (x / d) == (x / m) * c + (x % m) / d by {
        vstd::arithmetic::div_mod::lemma_fundamental_div_mod(x, m);
        vstd::arithmetic::div_mod::lemma_mod_bound(x, m);
        vstd::arithmetic::div_mod::lemma_fundamental_div_mod(x % m, d);
        vstd::arithmetic::div_mod::lemma_mod_bound(x % m, d);
        vstd::arithmetic::div_mod::lemma_div_pos_is_pos(x % m, d);
        vstd::arithmetic::div_mod::lemma_div_pos_is_pos(x, m);
        assert(x == ((x / m) * c + (x % m) / d) * d + (x % m) % d) by (nonlinear_arith)
            requires x == m * (x / m) + x % m, x % m == d * ((x % m) / d) + (x % m) % d, m == d * c;
        vstd::arithmetic::div_mod::lemma_fundamental_div_mod_converse(x, d, (x / m) * c + (x % m) / d, (x % m) % d);
    }
    assert((a as int / d) == (a as int / m) * c + (a as int % m) / d);
    assert((b as int / d) == (b as int / m) * c + (b as int % m) / d);
}

/// `new` is `old` with at most entry `idx` of the node at frame `k`
/// changed, and with nodes added in frames that held none.
pub open spec fn entry_changed<E: PageTableEntryTrait>(old: &PageTableMem<E>, new: &PageTableMem<E>, k: int, idx: int) -> bool {
    &&& new.nodes@.len() == old.nodes@.len()
    &&& forall|j: int| 0 <= j < old.nodes@.len() && j != k && #[trigger] old.nodes@[j] is Some ==> new.nodes@[j] == old.nodes@[j]
    &&& old.nodes@[k] is Some ==> {
        &&& new.nodes@[k] is Some
        &&& (new.nodes@[k]->Some_0).meta.level == (old.nodes@[k]->Some_0).meta.level
        &&& (new.nodes@[k]->Some_0).prefix == (old.nodes@[k]->Some_0).prefix
        &&& (new.nodes@[k]->Some_0).meta.is_tracked == (old.nodes@[k]->Some_0).meta.is_tracked
        &&& (new.nodes@[k]->Some_0).table@.len() == (old.nodes@[k]->Some_0).table@.len()
        &&& forall|i: int| 0 <= i < (old.nodes@[k]->Some_0).table@.len() && i != idx
            ==> #[trigger] (new.nodes@[k]->Some_0).table@[i] == (old.nodes@[k]->Some_0).table@[i]
    }
}

/// Changes of the same entry compose.
pub proof fn lemma_entry_changed_trans<E: PageTableEntryTrait>(a: &PageTableMem<E>, b: &PageTableMem<E>, c: &PageTableMem<E>, k: int, idx: int)
    requires
        entry_changed(a, b, k, idx),
        entry_changed(b, c, k, idx),
    ensures
        entry_changed(a, c, k, idx),
{
    assert forall|j: int| 0 <= j < a.nodes@.len() && j != k && #[trigger] a.nodes@[j] is Some implies c.nodes@[j] == a.nodes@[j] by {
        assert(b.nodes@[j] == a.nodes@[j]);
    }
    if a.nodes@[k] is Some {
        assert forall|i: int| 0 <= i < (a.nodes@[k]->Some_0).table@.len() && i != idx
            implies #[trigger] (c.nodes@[k]->Some_0).table@[i] == (a.nodes@[k]->Some_0).table@[i] by {
            assert((b.nodes@[k]->Some_0).table@[i] == (a.nodes@[k]->Some_0).table@[i]);
        }
    }
}

/// A lookup that does not pass the changed entry finds what it found
/// before: from a node whose range holds `va`, the walk for `va` meets
/// each node only in the range of that node, so it passes entry `idx` of
/// the node at frame `k` only for addresses of that entry's range.
pub proof fn lemma_lookup_entry_changed<E: PageTableEntryTrait>(
    m1: &PageTableMem<E>,
    m2: &PageTableMem<E>,
    fm: &FrameManager,
    k: int,
    idx: int,
    pa: Paddr,
    level: int,
    va: Vaddr,
)
    requires
        m1.wf(fm),
        1 <= level <= NR_LEVELS,
        m1.is_node(pa, level),
        m1.node(pa).prefix@ == range_number(va as int, level),
        entry_changed(m1, m2, k, idx),
        m1.nodes@[k] is Some ==> range_number(va as int, (m1.nodes@[k]->Some_0).meta.level - 1)
            != (m1.nodes@[k]->Some_0).prefix@ * 512 + idx,
    ensures
        m2.lookup(pa, level, va) == m1.lookup(pa, level, va),
    decreases level,
{
    let f = frame_of(pa);
    let i = pte_index_spec(va, level) as int;
    lemma_page_size_values();
    assert(0 <= i < 512) by {
        vstd::arithmetic::div_mod::lemma_mod_bound((va as nat / page_size_spec(level)) as int, 512);
    }
    assert(m1.node_wf(fm, f));
    lemma_range_number_step(va, level);
    if f == k {
        assert(i != idx);
    }
    assert(m2.node(pa).table@[i] == m1.node(pa).table@[i]);
    let c = m1.node(pa).table@[i];
    assert(m1.child_ok(fm, c, m1.node(pa).meta.level, m1.node(pa).meta.is_tracked));
    if let Child::PageTable(raw) = c {
        if level > 1 {
            assert(m1.nodes@[frame_of(raw.raw)]->Some_0.prefix@ == m1.node(pa).prefix@ * 512 + i);
            lemma_lookup_entry_changed(m1, m2, fm, k, idx, raw.raw, level - 1, va);
        }
    }
}


impl<M: PageTableMode, E: PageTableEntryTrait> Cursor<M, E> {
    /// Each node on the path covers, at its level, the range number of the
    /// current address.
    pub proof fn lemma_path_prefix(&self, mem: &PageTableMem<E>, fm: &FrameManager, l: int)
        requires
            self.wf(mem),
            mem.wf(fm),
            self.va < self.barrier_va.end,
            self.level <= l <= self.guard_level,
        ensures
            mem.node(self.guard_at(l).raw).prefix@ == range_number(self.va as int, l),
        decreases self.guard_level - l,
    {
        let gl = self.guard_level as int;
        if l == gl {
            lemma_same_prefix_above(self.va, self.barrier_va.start, gl + 1, NR_LEVELS + 1);
            lemma_range_number_same(self.va, self.barrier_va.start, gl + 1);
        } else {
            self.lemma_path_prefix(mem, fm, l + 1);
            assert(self.guards@[l - 1] is Some);
            assert(self.guards@[l] is Some);
            let p = self.guard_at(l + 1).raw;
            let i = pte_index_spec(self.va, l + 1) as int;
            assert(mem.node(p).table@[i] == Child::PageTable(self.guard_at(l)));
            assert(mem.node_wf(fm, frame_of(p)));
            assert(0 <= i < 512) by {
                vstd::arithmetic::div_mod::lemma_mod_bound((self.va as nat / page_size_spec(l + 1)) as int, 512);
            }
            lemma_range_number_step(self.va, l + 1);
        }
    }

    /// An address in the range of the path node of level `l` is looked up
    /// through that node.
    pub proof fn lemma_view_in_slot(&self, mem: &PageTableMem<E>, l: int, u: Vaddr)
        requires
            self.wf(mem),
            self.level <= l <= self.guard_level,
            u as int / ps(l + 1) == self.va as int / ps(l + 1),
        ensures
            self.view(mem, u) == mem.lookup(self.guard_at(l).raw, l, u),
        decreases self.guard_level - l,
    {
        if l < self.guard_level {
            lemma_same_prefix_above(u, self.va, l + 1, l + 2);
            self.lemma_view_in_slot(mem, l + 1, u);
            assert(self.guards@[l - 1] is Some);
            assert(self.guards@[l] is Some);
            assert(mem.node(self.guard_at(l + 1).raw).table@[pte_index_spec(self.va, l + 1) as int]
                == Child::PageTable(self.guard_at(l)));
        }
    }

    /// A change of the current entry leaves the view of the addresses
    /// outside the current slot as it was.
    pub proof fn lemma_view_outside_slot(&self, m1: &PageTableMem<E>, m2: &PageTableMem<E>, fm: &FrameManager, u: Vaddr)
        requires
            self.wf(m1),
            m1.wf(fm),
            self.va < self.barrier_va.end,
            self.in_guard_range(u),
            entry_changed(m1, m2, frame_of(self.cur_node().raw), pte_index_spec(self.va, self.level as int) as int),
            u as int / ps(self.level as int) != self.va as int / ps(self.level as int),
        ensures
            self.view(m2, u) == self.view(m1, u),
    {
        let gl = self.guard_level as int;
        let l = self.level as int;
        assert(self.guards@[l - 1] is Some);
        assert(self.guards@[gl - 1] is Some);
        self.lemma_path_prefix(m1, fm, l);
        self.lemma_path_prefix(m1, fm, gl);
        lemma_range_number_step(self.va, l);
        lemma_same_prefix_above(u, self.barrier_va.start, gl + 1, NR_LEVELS + 1);
        lemma_same_prefix_above(self.va, self.barrier_va.start, gl + 1, NR_LEVELS + 1);
        lemma_range_number_same(u, self.va, gl + 1);
        lemma_range_number_same(u, self.va, l);
        lemma_lookup_entry_changed(m1, m2, fm, frame_of(self.cur_node().raw), pte_index_spec(self.va, l) as int,
            self.guard_node().raw, gl, u);
    }
}

/// Replacing a child changes that entry only.
pub proof fn lemma_replaced_entry_changed<E: PageTableEntryTrait>(m1: &PageTableMem<E>, m2: &PageTableMem<E>, pa: Paddr, idx: int, c: Child, pte: E)
    requires
        m2.child_replaced(m1, pa, idx, c, pte),
        m1.nodes@[frame_of(pa)] is Some,
        0 <= frame_of(pa) < m1.nodes@.len(),
        0 <= idx < (m1.nodes@[frame_of(pa)]->Some_0).table@.len(),
    ensures
        entry_changed(m1, m2, frame_of(pa), idx),
{
    let k = frame_of(pa);
    let t1 = (m1.nodes@[k]->Some_0).table@;
    let t2 = (m2.nodes@[k]->Some_0).table@;
    assert(t2 == t1.update(idx, c));
    assert forall|i: int| 0 <= i < t1.len() && i != idx implies #[trigger] t2[i] == t1[i] by {
        assert(t2[i] == t1.update(idx, c)[i]);
    }
}

/// Adding a node in a frame that held none changes no entry.
pub proof fn lemma_fresh_entry_changed<E: PageTableEntryTrait>(m1: &PageTableMem<E>, m2: &PageTableMem<E>, f: int, k: int, idx: int)
    requires
        m1.same_except(m2, f),
        0 <= f < m1.nodes@.len(),
        m1.nodes@[f] is None,
        0 <= k < m1.nodes@.len(),
    ensures
        entry_changed(m1, m2, k, idx),
{
    if m1.nodes@[k] is Some {
        assert(k != f);
        assert(m2.nodes@[k] == m1.nodes@[k]);
    }
}

/// The offset in a page of a level is the offset of the sub page within it
/// plus the offset in the sub page.
pub proof fn lemma_offset_split(u: Vaddr, l: int)
    requires
        2 <= l <= NR_LEVELS,
    ensures
        page_offset(u, l) == pte_index_spec(u, l - 1) * page_size_spec(l - 1) + page_offset(u, l - 1),
{
    lemma_page_size_step(l - 1);
    assert(ps(l) == ps(l - 1) * 512);
    vstd::arithmetic::div_mod::lemma_breakdown(u as int, ps(l - 1), 512);
    vstd::arithmetic::mul::lemma_mul_is_commutative(ps(l - 1), ((u as int / ps(l - 1)) % 512));
}


/// Splitting the entry of a node into a new child node changes that entry
/// only.
pub proof fn lemma_split_entry_changed<E: PageTableEntryTrait>(m1: &PageTableMem<E>, m2: &PageTableMem<E>, k: int, f: int, idx: int, c: Child)
    requires
        m2.same_except2(m1, k, f),
        0 <= k < m1.nodes@.len(),
        0 <= f < m1.nodes@.len(),
        m1.nodes@[k] is Some,
        m1.nodes@[f] is None,
        0 <= idx < (m1.nodes@[k]->Some_0).table@.len(),
        (m2.nodes@[k]->Some_0).table@ == (m1.nodes@[k]->Some_0).table@.update(idx, c),
        (m2.nodes@[k]->Some_0).meta.is_tracked == (m1.nodes@[k]->Some_0).meta.is_tracked,
    ensures
        entry_changed(m1, m2, k, idx),
{
    let t1 = (m1.nodes@[k]->Some_0).table@;
    let t2 = (m2.nodes@[k]->Some_0).table@;
    assert forall|i: int| 0 <= i < t1.len() && i != idx implies #[trigger] t2[i] == t1[i] by {
        assert(t2[i] == t1.update(idx, c)[i]);
    }
    assert forall|j: int| 0 <= j < m1.nodes@.len() && j != k && #[trigger] m1.nodes@[j] is Some implies m2.nodes@[j] == m1.nodes@[j] by {
        assert(j != f);
    }
}

/// The node records of `old` above `level` are unchanged in `new`.
pub open spec fn nodes_above_kept<E: PageTableEntryTrait>(old: &PageTableMem<E>, new: &PageTableMem<E>, level: int) -> bool {
    forall|j: int| 0 <= j < old.nodes@.len() && #[trigger] old.nodes@[j] is Some && (old.nodes@[j]->Some_0).meta.level > level
        ==> new.nodes@[j] == old.nodes@[j]
}

/// Changing an entry of a node at or below `level` keeps the records above
/// `level`.
pub proof fn lemma_nodes_above_kept_step<E: PageTableEntryTrait>(a: &PageTableMem<E>, b: &PageTableMem<E>, c: &PageTableMem<E>, level: int, k: int, idx: int)
    requires
        a.nodes_kept(b),
        nodes_above_kept(a, b, level),
        entry_changed(b, c, k, idx),
        0 <= k < b.nodes@.len(),
        b.nodes@[k] is Some ==> (b.nodes@[k]->Some_0).meta.level <= level,
    ensures
        nodes_above_kept(a, c, level),
{
    assert forall|j: int| 0 <= j < a.nodes@.len() && #[trigger] a.nodes@[j] is Some && (a.nodes@[j]->Some_0).meta.level > level
        implies c.nodes@[j] == a.nodes@[j] by {
        assert(b.nodes@[j] == a.nodes@[j]);
        assert(j != k);
    }
}

/// The node that `guard_of` finds lies at or below the level it starts from.
pub proof fn lemma_guard_of_level<E: PageTableEntryTrait>(mem: &PageTableMem<E>, pa: Paddr, level: int, start: Vaddr, end: Vaddr)
    requires
        1 <= level,
    ensures
        1 <= guard_of(mem, pa, level, start, end).1 <= level,
    decreases level,
{
    let si = pte_index_spec(start, level);
    let ei = pte_index_spec((end - 1) as Vaddr, level);
    if level > 1 && si == ei {
        if let Child::PageTable(raw) = mem.node(pa).table@[si as int] {
            lemma_guard_of_level(mem, raw.raw, level - 1, start, end);
        }
    }
}

/// The node that `guard_of` finds covers, at its level, the range number of
/// the start of the range.
pub proof fn lemma_guard_of_prefix<E: PageTableEntryTrait>(mem: &PageTableMem<E>, fm: &FrameManager, pa: Paddr, level: int, start: Vaddr, end: Vaddr)
    requires
        mem.wf(fm),
        1 <= level <= NR_LEVELS,
        mem.is_node(pa, level),
        mem.node(pa).prefix@ == range_number(start as int, level),
    ensures
        mem.node(guard_of(mem, pa, level, start, end).0).prefix@ == range_number(start as int, guard_of(mem, pa, level, start, end).1),
    decreases level,
{
    let si = pte_index_spec(start, level);
    let ei = pte_index_spec((end - 1) as Vaddr, level);
    if level > 1 && si == ei {
        assert(0 <= si < 512) by {
            vstd::arithmetic::div_mod::lemma_mod_bound((start as nat / page_size_spec(level)) as int, 512);
        }
        let c = mem.node(pa).table@[si as int];
        if let Child::PageTable(raw) = c {
            assert(mem.node_wf(fm, frame_of(pa)));
            assert(mem.child_ok(fm, c, mem.node(pa).meta.level, mem.node(pa).meta.is_tracked));
            lemma_range_number_step(start, level);
            lemma_guard_of_prefix(mem, fm, raw.raw, level - 1, start, end);
        }
    }
}

/// A walk from the node at `pa` for an address of the range reaches the
/// node that `guard_of` finds, and passes only nodes above its level; so
/// it still does when those nodes are unchanged.
pub proof fn lemma_guard_lookup<E: PageTableEntryTrait>(
    m1: &PageTableMem<E>,
    m2: &PageTableMem<E>,
    fm: &FrameManager,
    pa: Paddr,
    level: int,
    start: Vaddr,
    end: Vaddr,
    v: Vaddr,
)
    requires
        m1.wf(fm),
        1 <= level <= NR_LEVELS,
        m1.is_node(pa, level),
        start <= v < end,
        start as int / ps(level + 1) == (end - 1) as int / ps(level + 1),
        nodes_above_kept(m1, m2, guard_of(m1, pa, level, start, end).1),
    ensures
        m2.lookup(pa, level, v) == m2.lookup(guard_of(m1, pa, level, start, end).0, guard_of(m1, pa, level, start, end).1, v),
    decreases level,
{
    let si = pte_index_spec(start, level);
    let ei = pte_index_spec((end - 1) as Vaddr, level);
    if level > 1 && si == ei {
        assert(0 <= si < 512) by {
            vstd::arithmetic::div_mod::lemma_mod_bound((start as nat / page_size_spec(level)) as int, 512);
        }
        let c = m1.node(pa).table@[si as int];
        if let Child::PageTable(raw) = c {
            assert(m1.node_wf(fm, frame_of(pa)));
            assert(m1.child_ok(fm, c, m1.node(pa).meta.level, m1.node(pa).meta.is_tracked));
            lemma_guard_of_level(m1, raw.raw, level - 1, start, end);
            assert(m2.nodes@[frame_of(pa)] == m1.nodes@[frame_of(pa)]);
            lemma_same_index_between(start, (end - 1) as Vaddr, v, level);
            lemma_same_index_between(start, (end - 1) as Vaddr, (end - 1) as Vaddr, level);
            lemma_guard_lookup(m1, m2, fm, raw.raw, level - 1, start, end, v);
        }
    }
}


impl<M: PageTableMode, E: PageTableEntryTrait> Cursor<M, E> {
    /// Putting a node with no entries in place of the empty current entry
    /// changes no translation: the addresses of the slot stay unmapped.
    pub proof fn lemma_alloc_keeps_translation(&self, m0: &PageTableMem<E>, m2: &PageTableMem<E>, fm: &FrameManager, child: RawPageTableNode)
        requires
            self.wf(m0),
            self.wf(m2),
            m0.wf(fm),
            self.va < self.barrier_va.end,
            self.level > 1,
            entry_changed(m0, m2, frame_of(self.cur_node().raw), pte_index_spec(self.va, self.level as int) as int),
            m0.node(self.cur_node().raw).table@[pte_index_spec(self.va, self.level as int) as int] is Empty,
            m2.node(self.cur_node().raw).table@[pte_index_spec(self.va, self.level as int) as int] == Child::PageTable(child),
            forall|i: int| 0 <= i < 512 ==> #[trigger] m2.node(child.raw).table@[i] is Empty,
        ensures
            forall|u: Vaddr| #[trigger] self.in_guard_range(u) ==> translate(self.view(m2, u), u) == translate(self.view(m0, u), u),
    {
        let l = self.level as int;
        assert forall|u: Vaddr| #[trigger] self.in_guard_range(u) implies translate(self.view(m2, u), u) == translate(self.view(m0, u), u) by {
            if u as int / ps(l) == self.va as int / ps(l) {
                lemma_same_prefix_above(u, self.va, l, l + 1);
                self.lemma_view_in_slot(m0, l, u);
                self.lemma_view_in_slot(m2, l, u);
                assert(pte_index_spec(u, l) == pte_index_spec(self.va, l));
                let j = pte_index_spec(u, l - 1) as int;
                assert(0 <= j < 512) by {
                    vstd::arithmetic::div_mod::lemma_mod_bound((u as nat / page_size_spec(l - 1)) as int, 512);
                }
                assert(m2.node(child.raw).table@[j] is Empty);
                assert(m2.lookup(child.raw, l - 1, u) == (Child::Empty, l - 1));
                assert(m2.lookup(self.cur_node().raw, l, u) == m2.lookup(child.raw, l - 1, u));
                assert(m0.lookup(self.cur_node().raw, l, u) == (Child::Empty, l));
            } else {
                self.lemma_view_outside_slot(m0, m2, fm, u);
            }
        }
    }

    /// Splitting the untracked huge page of the current entry into a node of
    /// smaller pages changes no translation.
    pub proof fn lemma_split_keeps_translation(&self, m0: &PageTableMem<E>, m2: &PageTableMem<E>, fm: &FrameManager, child: RawPageTableNode)
        requires
            self.wf(m0),
            self.wf(m2),
            m0.wf(fm),
            self.va < self.barrier_va.end,
            self.level > 1,
            entry_changed(m0, m2, frame_of(self.cur_node().raw), pte_index_spec(self.va, self.level as int) as int),
            ({
                let c = m0.node(self.cur_node().raw).table@[pte_index_spec(self.va, self.level as int) as int];
                &&& c is Untracked
                &&& c->Untracked_0 + ps(self.level as int) <= 0x1_0000_0000_0000_0000int
                &&& forall|i: int| 0 <= i < 512 ==> #[trigger] m2.node(child.raw).table@[i] == Child::Untracked(
                    (c->Untracked_0 + i * page_size_spec(self.level - 1)) as Paddr,
                    (self.level - 1) as PagingLevel,
                    c->Untracked_2,
                )
            }),
            m2.node(self.cur_node().raw).table@[pte_index_spec(self.va, self.level as int) as int] == Child::PageTable(child),
        ensures
            forall|u: Vaddr| #[trigger] self.in_guard_range(u) ==> translate(self.view(m2, u), u) == translate(self.view(m0, u), u),
    {
        let l = self.level as int;
        let c = m0.node(self.cur_node().raw).table@[pte_index_spec(self.va, l) as int];
        assert forall|u: Vaddr| #[trigger] self.in_guard_range(u) implies translate(self.view(m2, u), u) == translate(self.view(m0, u), u) by {
            if u as int / ps(l) == self.va as int / ps(l) {
                lemma_same_prefix_above(u, self.va, l, l + 1);
                self.lemma_view_in_slot(m0, l, u);
                self.lemma_view_in_slot(m2, l, u);
                assert(pte_index_spec(u, l) == pte_index_spec(self.va, l));
                let j = pte_index_spec(u, l - 1) as int;
                assert(0 <= j < 512) by {
                    vstd::arithmetic::div_mod::lemma_mod_bound((u as nat / page_size_spec(l - 1)) as int, 512);
                }
                let p = c->Untracked_0;
                let q = ps(l - 1);
                lemma_page_size_step(l - 1);
                assert(j * q < ps(l)) by (nonlinear_arith)
                    requires 0 <= j < 512, q > 0, ps(l) == 512 * q;
                assert(j * q >= 0) by (nonlinear_arith)
                    requires 0 <= j, q > 0;
                assert(m2.node(child.raw).table@[j] == Child::Untracked((p + j * q) as Paddr, (l - 1) as PagingLevel, c->Untracked_2));
                lemma_offset_split(u, l);
                assert(page_offset(u, l) == j * q + page_offset(u, l - 1));
                let n = Child::Untracked((p + j * q) as Paddr, (l - 1) as PagingLevel, c->Untracked_2);
                assert(m2.lookup(child.raw, l - 1, u) == (n, l - 1));
                assert(m2.lookup(self.cur_node().raw, l, u) == m2.lookup(child.raw, l - 1, u));
                assert(m0.lookup(self.cur_node().raw, l, u) == (c, l));
                assert((p + j * q) as Paddr == p + j * q);
            } else {
                self.lemma_view_outside_slot(m0, m2, fm, u);
            }
        }
    }

    /// Mapping the current slot, aligned to its size, with an untracked page
    /// translates its addresses to their offsets from `pa` and leaves the
    /// view of every other address as it was.
    pub proof fn lemma_map_slot_translation(&self, m1: &PageTableMem<E>, m2: &PageTableMem<E>, fm: &FrameManager, pa: Paddr, prop: PageProperty)
        requires
            self.wf(m1),
            self.wf(m2),
            m1.wf(fm),
            self.va < self.barrier_va.end,
            self.va as int % ps(self.level as int) == 0,
            entry_changed(m1, m2, frame_of(self.cur_node().raw), pte_index_spec(self.va, self.level as int) as int),
            m2.node(self.cur_node().raw).table@[pte_index_spec(self.va, self.level as int) as int]
                == Child::Untracked(pa, self.level, prop),
        ensures
            forall|u: Vaddr| #[trigger] self.in_guard_range(u) && !(self.va <= u < self.va + ps(self.level as int))
                ==> self.view(m2, u) == self.view(m1, u),
            forall|u: Vaddr| self.va <= u < self.va + ps(self.level as int)
                ==> #[trigger] translate(self.view(m2, u), u) == Some(((pa + (u - self.va)) as Paddr, prop)),
    {
        let l = self.level as int;
        let p = ps(l);
        lemma_page_size_step(l);
        assert forall|u: Vaddr| #[trigger] self.in_guard_range(u) && !(self.va <= u < self.va + p)
            implies self.view(m2, u) == self.view(m1, u) by {
            lemma_in_slot(self.va, u, self.va as int, p);
            self.lemma_view_outside_slot(m1, m2, fm, u);
        }
        assert forall|u: Vaddr| self.va <= u < self.va + p
            implies #[trigger] translate(self.view(m2, u), u) == Some(((pa + (u - self.va)) as Paddr, prop)) by {
            lemma_in_slot(self.va, u, self.va as int, p);
            lemma_same_prefix_above(u, self.va, l, l + 1);
            self.lemma_view_in_slot(m2, l, u);
            assert(pte_index_spec(u, l) == pte_index_spec(self.va, l));
            vstd::arithmetic::div_mod::lemma_fundamental_div_mod(u as int, p);
            vstd::arithmetic::div_mod::lemma_fundamental_div_mod(self.va as int, p);
            assert(page_offset(u, l) == u - self.va);
        }
    }
}


impl<M: PageTableMode, E: PageTableEntryTrait> Cursor<M, E> {
    /// Changing the property of the page mapped at the current slot, aligned
    /// to its size, changes the property of the translations of its
    /// addresses only, and leaves the view of every other address as it was.
    pub proof fn lemma_protect_slot_translation(&self, m1: &PageTableMem<E>, m2: &PageTableMem<E>, fm: &FrameManager, c: Child, p: PageProperty)
        requires
            self.wf(m1),
            self.wf(m2),
            m1.wf(fm),
            self.va < self.barrier_va.end,
            self.va as int % ps(self.level as int) == 0,
            entry_changed(m1, m2, frame_of(self.cur_node().raw), pte_index_spec(self.va, self.level as int) as int),
            c is Frame || c is Untracked,
            m1.node(self.cur_node().raw).table@[pte_index_spec(self.va, self.level as int) as int] == c,
            m2.node(self.cur_node().raw).table@[pte_index_spec(self.va, self.level as int) as int] == super::node::with_prop(c, p),
        ensures
            forall|u: Vaddr| #[trigger] self.in_guard_range(u) && !(self.va <= u < self.va + ps(self.level as int))
                ==> self.view(m2, u) == self.view(m1, u),
            forall|u: Vaddr| self.va <= u < self.va + ps(self.level as int) ==> {
                &&& self.in_guard_range(u)
                &&& #[trigger] translate(self.view(m1, u), u) is Some
                &&& translate(self.view(m2, u), u) == Some(((translate(self.view(m1, u), u)->Some_0).0, p))
                &&& (translate(self.view(m1, u), u)->Some_0).1 == prop_of(c)
            },
    {
        let l = self.level as int;
        let q = ps(l);
        lemma_page_size_step(l);
        assert forall|u: Vaddr| #[trigger] self.in_guard_range(u) && !(self.va <= u < self.va + q)
            implies self.view(m2, u) == self.view(m1, u) by {
            lemma_in_slot(self.va, u, self.va as int, q);
            self.lemma_view_outside_slot(m1, m2, fm, u);
        }
        assert forall|u: Vaddr| self.va <= u < self.va + q implies {
            &&& self.in_guard_range(u)
            &&& #[trigger] translate(self.view(m1, u), u) is Some
            &&& translate(self.view(m2, u), u) == Some(((translate(self.view(m1, u), u)->Some_0).0, p))
            &&& (translate(self.view(m1, u), u)->Some_0).1 == prop_of(c)
        } by {
            lemma_in_slot(self.va, u, self.va as int, q);
            lemma_same_prefix_above(u, self.va, l, l + 1);
            lemma_same_prefix_above(u, self.va, l, self.guard_level + 1);
            self.lemma_view_in_slot(m1, l, u);
            self.lemma_view_in_slot(m2, l, u);
            assert(pte_index_spec(u, l) == pte_index_spec(self.va, l));
            assert(m1.lookup(self.cur_node().raw, l, u) == (c, l));
            assert(m2.lookup(self.cur_node().raw, l, u) == (super::node::with_prop(c, p), l));
        }
    }
}


/// `new` is `old` where only entries that were empty may have changed:
/// every node of `old` is still there with the same level, tracking status
/// and range, and each of its entries is unchanged unless it was empty.
pub open spec fn only_fills<E: PageTableEntryTrait>(old: &PageTableMem<E>, new: &PageTableMem<E>) -> bool {
    &&& new.nodes@.len() == old.nodes@.len()
    &&& forall|k: int| 0 <= k < old.nodes@.len() && #[trigger] old.nodes@[k] is Some ==> {
        let o = old.nodes@[k]->Some_0;
        let n = new.nodes@[k]->Some_0;
        &&& new.nodes@[k] is Some
        &&& n.meta.level == o.meta.level
        &&& n.meta.is_tracked == o.meta.is_tracked
        &&& n.prefix == o.prefix
        &&& n.table@.len() == o.table@.len()
        &&& forall|i: int| 0 <= i < o.table@.len() ==> (#[trigger] n.table@[i] == o.table@[i] || o.table@[i] is Empty)
    }
}

/// Filling empty entries is transitive.
pub proof fn lemma_only_fills_trans<E: PageTableEntryTrait>(a: &PageTableMem<E>, b: &PageTableMem<E>, c: &PageTableMem<E>)
    requires
        only_fills(a, b),
        only_fills(b, c),
    ensures
        only_fills(a, c),
{
    assert forall|k: int| 0 <= k < a.nodes@.len() && #[trigger] a.nodes@[k] is Some implies {
        let o = a.nodes@[k]->Some_0;
        let n = c.nodes@[k]->Some_0;
        &&& c.nodes@[k] is Some
        &&& n.meta.level == o.meta.level
        &&& n.meta.is_tracked == o.meta.is_tracked
        &&& n.prefix == o.prefix
        &&& n.table@.len() == o.table@.len()
        &&& forall|i: int| 0 <= i < o.table@.len() ==> (#[trigger] n.table@[i] == o.table@[i] || o.table@[i] is Empty)
    } by {
        assert(b.nodes@[k] is Some);
        let o = a.nodes@[k]->Some_0;
        let m = b.nodes@[k]->Some_0;
        let n = c.nodes@[k]->Some_0;
        assert forall|i: int| 0 <= i < o.table@.len() implies (#[trigger] n.table@[i] == o.table@[i] || o.table@[i] is Empty) by {
            assert(m.table@[i] == o.table@[i] || o.table@[i] is Empty);
            assert(n.table@[i] == m.table@[i] || m.table@[i] is Empty);
        }
    }
}

/// A walk that ends at an entry that is not empty passes only entries that
/// were not empty, so filling empty entries does not change it.
pub proof fn lemma_only_fills_lookup<E: PageTableEntryTrait>(
    m1: &PageTableMem<E>,
    m2: &PageTableMem<E>,
    fm: &FrameManager,
    pa: Paddr,
    level: int,
    u: Vaddr,
)
    requires
        m1.wf(fm),
        1 <= level <= NR_LEVELS,
        m1.is_node(pa, level),
        only_fills(m1, m2),
        !(m1.lookup(pa, level, u).0 is Empty),
    ensures
        m2.lookup(pa, level, u) == m1.lookup(pa, level, u),
    decreases level,
{
    let f = frame_of(pa);
    let i = pte_index_spec(u, level) as int;
    assert(0 <= i < 512) by {
        vstd::arithmetic::div_mod::lemma_mod_bound((u as nat / page_size_spec(level)) as int, 512);
    }
    assert(m1.node_wf(fm, f));
    let c = m1.node(pa).table@[i];
    assert(m1.nodes@[f] is Some);
    assert(m2.node(pa).table@[i] == c || c is Empty);
    assert(m1.child_ok(fm, c, m1.node(pa).meta.level, m1.node(pa).meta.is_tracked));
    if let Child::PageTable(raw) = c {
        if level > 1 {
            lemma_only_fills_lookup(m1, m2, fm, raw.raw, level - 1, u);
        }
    }
}

/// A walk from a node whose range holds `u` either does not pass the
/// changed entry, and finds what it found, or reaches the node of the
/// changed entry, and then finds what a walk from that node finds, before
/// and after.
pub proof fn lemma_lookup_reaches<E: PageTableEntryTrait>(
    m1: &PageTableMem<E>,
    m2: &PageTableMem<E>,
    fm: &FrameManager,
    k: int,
    idx: int,
    pa: Paddr,
    level: int,
    u: Vaddr,
)
    requires
        m1.wf(fm),
        1 <= level <= NR_LEVELS,
        m1.is_node(pa, level),
        m1.node(pa).prefix@ == range_number(u as int, level),
        entry_changed(m1, m2, k, idx),
        0 <= k < m1.nodes@.len(),
        m1.nodes@[k] is Some,
    ensures
        m2.lookup(pa, level, u) == m1.lookup(pa, level, u) || ({
            let kl = (m1.nodes@[k]->Some_0).meta.level as int;
            &&& m1.lookup(pa, level, u) == m1.lookup((k * PAGE_SIZE) as Paddr, kl, u)
            &&& m2.lookup(pa, level, u) == m2.lookup((k * PAGE_SIZE) as Paddr, kl, u)
            &&& m1.node((k * PAGE_SIZE) as Paddr).prefix@ == range_number(u as int, kl)
        }),
    decreases level,
{
    let f = frame_of(pa);
    let i = pte_index_spec(u, level) as int;
    lemma_page_size_values();
    assert(0 <= i < 512) by {
        vstd::arithmetic::div_mod::lemma_mod_bound((u as nat / page_size_spec(level)) as int, 512);
    }
    assert(m1.node_wf(fm, f));
    assert(pa == f * PAGE_SIZE) by {
        vstd::arithmetic::div_mod::lemma_fundamental_div_mod(pa as int, 4096);
    }
    if f == k {
        assert((k * PAGE_SIZE) as Paddr == pa);
    } else {
        assert(m2.nodes@[f] == m1.nodes@[f]);
        let c = m1.node(pa).table@[i];
        assert(m1.child_ok(fm, c, m1.node(pa).meta.level, m1.node(pa).meta.is_tracked));
        lemma_range_number_step(u, level);
        if let Child::PageTable(raw) = c {
            if level > 1 {
                lemma_lookup_reaches(m1, m2, fm, k, idx, raw.raw, level - 1, u);
            }
        }
    }
}


/// Changing an empty entry fills it.
pub proof fn lemma_entry_changed_fills<E: PageTableEntryTrait>(m1: &PageTableMem<E>, m2: &PageTableMem<E>, k: int, idx: int)
    requires
        entry_changed(m1, m2, k, idx),
        0 <= k < m1.nodes@.len(),
        m1.nodes@[k] is Some,
        0 <= idx < (m1.nodes@[k]->Some_0).table@.len(),
        (m1.nodes@[k]->Some_0).table@[idx] is Empty,
    ensures
        only_fills(m1, m2),
{
    assert forall|j: int| 0 <= j < m1.nodes@.len() && #[trigger] m1.nodes@[j] is Some implies {
        let o = m1.nodes@[j]->Some_0;
        let n = m2.nodes@[j]->Some_0;
        &&& m2.nodes@[j] is Some
        &&& n.meta.level == o.meta.level
        &&& n.meta.is_tracked == o.meta.is_tracked
        &&& n.prefix == o.prefix
        &&& n.table@.len() == o.table@.len()
        &&& forall|i: int| 0 <= i < o.table@.len() ==> (#[trigger] n.table@[i] == o.table@[i] || o.table@[i] is Empty)
    } by {
        if j == k {
            let o = m1.nodes@[j]->Some_0;
            let n = m2.nodes@[j]->Some_0;
            assert forall|i: int| 0 <= i < o.table@.len() implies (#[trigger] n.table@[i] == o.table@[i] || o.table@[i] is Empty) by {
                if i != idx {
                    assert(n.table@[i] == o.table@[i]);
                }
            }
        }
    }
}

/// Putting a node with no entries in place of an empty entry changes the
/// translation of no walk: the addresses of the entry stay unmapped.
pub proof fn lemma_alloc_keeps_walk_translation<E: PageTableEntryTrait>(
    m0: &PageTableMem<E>,
    m2: &PageTableMem<E>,
    fm: &FrameManager,
    x: Paddr,
    idx: int,
    child: RawPageTableNode,
    pa: Paddr,
    level: int,
    u: Vaddr,
)
    requires
        m0.wf(fm),
        1 <= level <= NR_LEVELS,
        m0.is_node(pa, level),
        m0.node(pa).prefix@ == range_number(u as int, level),
        m0.is_node(x, m0.node(x).meta.level as int),
        m0.node(x).meta.level > 1,
        0 <= idx < 512,
        entry_changed(m0, m2, frame_of(x), idx),
        m0.node(x).table@[idx] is Empty,
        m2.node(x).table@[idx] == Child::PageTable(child),
        forall|i: int| 0 <= i < 512 ==> #[trigger] m2.node(child.raw).table@[i] is Empty,
    ensures
        translate(m2.lookup(pa, level, u), u) == translate(m0.lookup(pa, level, u), u),
{
    let k = frame_of(x);
    let kl = m0.node(x).meta.level as int;
    assert(m0.node_wf(fm, k));
    if range_number(u as int, kl - 1) != m0.node(x).prefix@ * 512 + idx {
        lemma_lookup_entry_changed(m0, m2, fm, k, idx, pa, level, u);
    } else {
        lemma_lookup_reaches(m0, m2, fm, k, idx, pa, level, u);
        assert(x == (k * PAGE_SIZE) as Paddr) by {
            vstd::arithmetic::div_mod::lemma_fundamental_div_mod(x as int, 4096);
        }
        if m2.lookup(pa, level, u) != m0.lookup(pa, level, u) {
            lemma_range_number_step(u, kl);
            assert(pte_index_spec(u, kl) == idx);
            let j = pte_index_spec(u, kl - 1) as int;
            assert(0 <= j < 512) by {
                vstd::arithmetic::div_mod::lemma_mod_bound((u as nat / page_size_spec(kl - 1)) as int, 512);
            }
            assert(m2.node(child.raw).table@[j] is Empty);
            assert(m2.lookup(child.raw, kl - 1, u) == (Child::Empty, kl - 1));
            assert(m2.lookup(x, kl, u) == m2.lookup(child.raw, kl - 1, u));
            assert(m0.lookup(x, kl, u) == (Child::Empty, kl));
        }
    }
}


/// Whether every node of level 1 in the subtree of the node at `pa` of
/// `level` maps tracked pages: the subtree allows mapping tracked frames.
pub open spec fn subtree_tracked<E: PageTableEntryTrait>(mem: &PageTableMem<E>, pa: Paddr, level: int) -> bool
    decreases level,
{
    &&& (level == 1 ==> mem.node(pa).meta.is_tracked == MapTrackingStatus::TrackedPages)
    &&& (level > 1 ==> forall|i: int| 0 <= i < 512 ==> match #[trigger] mem.node(pa).table@[i] {
        Child::PageTable(raw) => subtree_tracked(mem, raw.raw, level - 1),
        _ => true,
    })
}

/// Changing one entry of node `x` to a leaf or to a new node `f` that maps
/// tracked pages and has no child node keeps every subtree that allowed
/// tracked mappings allowing them.
pub proof fn lemma_subtree_tracked_kept<E: PageTableEntryTrait>(
    mem1: &PageTableMem<E>,
    mem2: &PageTableMem<E>,
    fm: &FrameManager,
    x: Paddr,
    i: int,
    f: Paddr,
    n: Paddr,
    l: int,
)
    requires
        fm.wf(),
        mem1.wf(fm),
        mem1.nodes@[frame_of(x)] is Some,
        mem2.same_except2(mem1, frame_of(x), frame_of(f)),
        mem1.nodes@[frame_of(f)] is None || frame_of(f) == frame_of(x),
        frame_of(f) < mem1.nodes@.len(),
        mem2.node(x).meta.is_tracked == mem1.node(x).meta.is_tracked,
        mem2.node(x).table@ == mem1.node(x).table@.update(i, mem2.node(x).table@[i]),
        0 <= i < 512,
        match mem2.node(x).table@[i] {
            Child::PageTable(raw) => {
                &&& raw.raw == f
                &&& mem2.nodes@[frame_of(f)] is Some
                &&& mem2.node(f).meta.is_tracked == MapTrackingStatus::TrackedPages
                &&& forall|j: int| 0 <= j < 512 ==> !(#[trigger] mem2.node(f).table@[j] is PageTable)
            },
            _ => true,
        },
        mem1.is_node(n, l),
        subtree_tracked(mem1, n, l),
    ensures
        subtree_tracked(mem2, n, l),
    decreases l,
{
    let k = frame_of(n);
    assert(mem1.node_wf(fm, k));
    if k != frame_of(x) {
        assert(k != frame_of(f));
        assert(mem2.nodes@[k] == mem1.nodes@[k]);
    }
    if l > 1 {
        assert forall|j: int| 0 <= j < 512 implies match #[trigger] mem2.node(n).table@[j] {
            Child::PageTable(raw) => subtree_tracked(mem2, raw.raw, l - 1),
            _ => true,
        } by {
            let c2 = mem2.node(n).table@[j];
            let c1 = mem1.node(n).table@[j];
            if k == frame_of(x) && j == i {
                match c2 {
                    Child::PageTable(raw) => {
                        assert(subtree_tracked(mem2, raw.raw, l - 1)) by {
                            assert forall|jj: int| 0 <= jj < 512 implies match #[trigger] mem2.node(f).table@[jj] {
                                Child::PageTable(raw2) => subtree_tracked(mem2, raw2.raw, l - 2),
                                _ => true,
                            } by {
                                assert(!(mem2.node(f).table@[jj] is PageTable));
                            }
                        }
                    },
                    _ => {},
                }
            } else {
                assert(c2 == c1);
                assert(mem1.child_ok(fm, c1, mem1.node(n).meta.level, mem1.node(n).meta.is_tracked));
                match c1 {
                    Child::PageTable(raw) => {
                        assert(subtree_tracked(mem1, raw.raw, l - 1));
                        lemma_subtree_tracked_kept(mem1, mem2, fm, x, i, f, raw.raw, l - 1);
                    },
                    _ => {},
                }
            }
        }
    }
}

/// The leaf node of a walk that ends at level 1 in a subtree that allows
/// tracked mappings maps tracked pages.
pub proof fn lemma_tracked_leaf_node<E: PageTableEntryTrait>(mem: &PageTableMem<E>, fm: &FrameManager, pa: Paddr, level: int, u: Vaddr)
    requires
        mem.wf(fm),
        1 <= level <= NR_LEVELS,
        mem.is_node(pa, level),
        subtree_tracked(mem, pa, level),
        mem.lookup(pa, level, u).1 == 1,
    ensures
        mem.node(mem.leaf_node(pa, level, u)).meta.is_tracked == MapTrackingStatus::TrackedPages,
    decreases level,
{
    let i = pte_index_spec(u, level) as int;
    assert(0 <= i < 512) by {
        vstd::arithmetic::div_mod::lemma_mod_bound((u as nat / page_size_spec(level)) as int, 512);
    }
    assert(mem.node_wf(fm, frame_of(pa)));
    let c = mem.node(pa).table@[i];
    assert(mem.child_ok(fm, c, mem.node(pa).meta.level, mem.node(pa).meta.is_tracked));
    if level > 1 {
        if let Child::PageTable(raw) = c {
            lemma_tracked_leaf_node(mem, fm, raw.raw, level - 1, u);
        }
    }
}

/// No walk ends at a node: a node of level 1 has no child node.
pub proof fn lemma_lookup_not_node<E: PageTableEntryTrait>(mem: &PageTableMem<E>, fm: &FrameManager, pa: Paddr, level: int, u: Vaddr)
    requires
        mem.wf(fm),
        1 <= level <= NR_LEVELS,
        mem.is_node(pa, level),
    ensures
        !(mem.lookup(pa, level, u).0 is PageTable),
        1 <= mem.lookup(pa, level, u).1 <= level,
        mem.is_node(mem.leaf_node(pa, level, u), mem.lookup(pa, level, u).1),
    decreases level,
{
    let i = pte_index_spec(u, level) as int;
    assert(0 <= i < 512) by {
        vstd::arithmetic::div_mod::lemma_mod_bound((u as nat / page_size_spec(level)) as int, 512);
    }
    assert(mem.node_wf(fm, frame_of(pa)));
    let c = mem.node(pa).table@[i];
    assert(mem.child_ok(fm, c, mem.node(pa).meta.level, mem.node(pa).meta.is_tracked));
    if let Child::PageTable(raw) = c {
        if level > 1 {
            lemma_lookup_not_node(mem, fm, raw.raw, level - 1, u);
        } else {
            assert(mem.node_wf(fm, frame_of(raw.raw)));
        }
    }
}


/// A sequence without present children holds empty children only.
pub proof fn lemma_nr_present_zero(s: Seq<Child>)
    requires
        nr_present(s) == 0,
    ensures
        forall|i: int| 0 <= i < s.len() ==> #[trigger] s[i] is Empty,
    decreases s.len(),
{
    if s.len() > 0 {
        lemma_nr_present_zero(s.drop_last());
        assert forall|i: int| 0 <= i < s.len() implies #[trigger] s[i] is Empty by {
            if i < s.len() - 1 {
                assert(s[i] == s.drop_last()[i]);
            }
        }
    }
}

impl<M: PageTableMode, E: PageTableEntryTrait> Cursor<M, E> {
    /// The cursor stays well formed when one entry that held no node
    /// changes to something that is not a node.
    pub proof fn lemma_wf_leaf_change(&self, m1: &PageTableMem<E>, m2: &PageTableMem<E>, fm: &FrameManager, k: int, idx: int)
        requires
            self.wf(m1),
            m1.wf(fm),
            entry_changed(m1, m2, k, idx),
            0 <= k < m1.nodes@.len(),
            m1.nodes@[k] is Some,
            !((m1.nodes@[k]->Some_0).table@[idx] is PageTable),
        ensures
            self.wf(m2),
    {
        assert forall|l: int| self.level <= l <= self.guard_level implies {
            &&& #[trigger] self.guards@[l - 1] is Some
            &&& self.guard_at(l).level == l
            &&& m2.is_node(self.guard_at(l).raw, l)
        } by {
            assert(self.guards@[l - 1] is Some);
            let f = frame_of(self.guard_at(l).raw);
            if f != k {
                assert(m2.nodes@[f] == m1.nodes@[f]);
            }
        }
        assert forall|l: int| self.level <= l < self.guard_level implies #[trigger] m2.node(self.guard_at(l + 1).raw).table@[pte_index_spec(self.va, l + 1) as int]
            == Child::PageTable(self.guard_at(l)) by {
            assert(self.guards@[l] is Some);
            assert(self.guards@[l - 1] is Some);
            let i = pte_index_spec(self.va, l + 1) as int;
            assert(m1.node(self.guard_at(l + 1).raw).table@[i] == Child::PageTable(self.guard_at(l)));
            let f = frame_of(self.guard_at(l + 1).raw);
            assert(m1.is_node(self.guard_at(l + 1).raw, l + 1));
            assert(m1.node_wf(fm, f));
            if f != k {
                assert(m2.nodes@[f] == m1.nodes@[f]);
            } else {
                assert(0 <= i < 512) by {
                    vstd::arithmetic::div_mod::lemma_mod_bound((self.va as nat / page_size_spec(l + 1)) as int, 512);
                }
                assert(i != idx);
            }
        }
        assert(self.guards@[self.guard_level - 1] is Some);
        let g = frame_of(self.guard_node().raw);
        if g != k {
            assert(m2.nodes@[g] == m1.nodes@[g]);
        }
    }

    /// The cursor stays well formed when only empty entries change.
    pub proof fn lemma_wf_only_fills(&self, m1: &PageTableMem<E>, m2: &PageTableMem<E>, fm: &FrameManager)
        requires
            self.wf(m1),
            m1.wf(fm),
            only_fills(m1, m2),
        ensures
            self.wf(m2),
    {
        assert forall|l: int| self.level <= l <= self.guard_level implies {
            &&& #[trigger] self.guards@[l - 1] is Some
            &&& self.guard_at(l).level == l
            &&& m2.is_node(self.guard_at(l).raw, l)
        } by {
            assert(self.guards@[l - 1] is Some);
            assert(m1.nodes@[frame_of(self.guard_at(l).raw)] is Some);
        }
        assert forall|l: int| self.level <= l < self.guard_level implies #[trigger] m2.node(self.guard_at(l + 1).raw).table@[pte_index_spec(self.va, l + 1) as int]
            == Child::PageTable(self.guard_at(l)) by {
            assert(self.guards@[l] is Some);
            assert(self.guards@[l - 1] is Some);
            let i = pte_index_spec(self.va, l + 1) as int;
            assert(m1.node(self.guard_at(l + 1).raw).table@[i] == Child::PageTable(self.guard_at(l)));
            assert(m1.nodes@[frame_of(self.guard_at(l + 1).raw)] is Some);
            assert(0 <= i < 512) by {
                vstd::arithmetic::div_mod::lemma_mod_bound((self.va as nat / page_size_spec(l + 1)) as int, 512);
            }
            assert(m1.node_wf(fm, frame_of(self.guard_at(l + 1).raw)));
        }
        assert(self.guards@[self.guard_level - 1] is Some);
        assert(m1.nodes@[frame_of(self.guard_node().raw)] is Some);
    }

    /// The path nodes of a cursor whose guard subtree allows tracked
    /// mappings allow them too.
    pub proof fn lemma_path_tracked(&self, mem: &PageTableMem<E>, fm: &FrameManager, l: int)
        requires
            self.wf(mem),
            mem.wf(fm),
            subtree_tracked(mem, self.guard_node().raw, self.guard_level as int),
            self.level <= l <= self.guard_level,
        ensures
            subtree_tracked(mem, self.guard_at(l).raw, l),
        decreases self.guard_level - l,
    {
        if l < self.guard_level {
            self.lemma_path_tracked(mem, fm, l + 1);
            assert(self.guards@[l - 1] is Some);
            assert(self.guards@[l] is Some);
            let i = pte_index_spec(self.va, l + 1) as int;
            assert(0 <= i < 512) by {
                vstd::arithmetic::div_mod::lemma_mod_bound((self.va as nat / page_size_spec(l + 1)) as int, 512);
            }
            assert(mem.node(self.guard_at(l + 1).raw).table@[i] == Child::PageTable(self.guard_at(l)));
        }
    }

    /// Every address of the current slot is unmapped when the current entry
    /// is empty or is a node without present children.
    pub proof fn lemma_slot_unmapped(&self, mem: &PageTableMem<E>, fm: &FrameManager, u: Vaddr)
        requires
            self.wf(mem),
            mem.wf(fm),
            u as int / ps(self.level as int) == self.va as int / ps(self.level as int),
            ({
                let c = mem.node(self.cur_node().raw).table@[pte_index_spec(self.va, self.level as int) as int];
                ||| c is Empty
                ||| (c matches Child::PageTable(raw) && mem.node(raw.raw).meta.nr_children == 0)
            }),
        ensures
            self.view(mem, u).0 is Empty,
    {
        let l = self.level as int;
        lemma_same_prefix_above(u, self.va, l, l + 1);
        self.lemma_view_in_slot(mem, l, u);
        assert(pte_index_spec(u, l) == pte_index_spec(self.va, l));
        assert(self.guards@[l - 1] is Some);
        let i = pte_index_spec(self.va, l) as int;
        assert(0 <= i < 512) by {
            vstd::arithmetic::div_mod::lemma_mod_bound((self.va as nat / page_size_spec(l)) as int, 512);
        }
        assert(mem.node_wf(fm, frame_of(self.cur_node().raw)));
        let c = mem.node(self.cur_node().raw).table@[i];
        if let Child::PageTable(raw) = c {
            assert(mem.child_ok(fm, c, mem.node(self.cur_node().raw).meta.level, mem.node(self.cur_node().raw).meta.is_tracked));
            assert(mem.node_wf(fm, frame_of(raw.raw)));
            lemma_nr_present_zero(mem.node(raw.raw).table@);
            let j = pte_index_spec(u, l - 1) as int;
            assert(0 <= j < 512) by {
                vstd::arithmetic::div_mod::lemma_mod_bound((u as nat / page_size_spec(l - 1)) as int, 512);
            }
            assert(mem.node(raw.raw).table@[j] is Empty);
            assert(mem.lookup(raw.raw, l - 1, u) == (Child::Empty, l - 1));
        }
    }
}


/// Addresses of one base page are looked up alike.
pub proof fn lemma_same_page_lookup<E: PageTableEntryTrait>(mem: &PageTableMem<E>, pa: Paddr, level: int, u: Vaddr, v: Vaddr)
    requires
        1 <= level <= NR_LEVELS,
        u as int / ps(1) == v as int / ps(1),
    ensures
        mem.lookup(pa, level, u) == mem.lookup(pa, level, v),
    decreases level,
{
    lemma_same_prefix_above(u, v, 1, level);
    if level == 1 {
        assert(pte_index_spec(u, 1) == pte_index_spec(v, 1));
    }
    if level > 1 {
        if let Child::PageTable(raw) = mem.node(pa).table@[pte_index_spec(u, level) as int] {
            lemma_same_page_lookup(mem, raw.raw, level - 1, u, v);
        }
    }
}

/// Addresses in the same page of the level where a walk ends take the same
/// way down and find the same leaf.
pub proof fn lemma_same_slot_lookup<E: PageTableEntryTrait>(mem: &PageTableMem<E>, pa: Paddr, level: int, u: Vaddr, v: Vaddr)
    requires
        1 <= level <= NR_LEVELS,
        1 <= mem.lookup(pa, level, v).1,
        u as int / ps(mem.lookup(pa, level, v).1) == v as int / ps(mem.lookup(pa, level, v).1),
    ensures
        mem.lookup(pa, level, u) == mem.lookup(pa, level, v),
    decreases level,
{
    let l = mem.lookup(pa, level, v).1;
    assert(l <= level) by {
        lemma_lookup_level_bound(mem, pa, level, v);
    }
    lemma_same_prefix_above(u, v, l, level);
    if level == 1 {
        assert(pte_index_spec(u, 1) == pte_index_spec(v, 1));
    }
    if level > 1 {
        if let Child::PageTable(raw) = mem.node(pa).table@[pte_index_spec(v, level) as int] {
            assert(mem.lookup(raw.raw, level - 1, v) == mem.lookup(pa, level, v));
            lemma_same_slot_lookup(mem, raw.raw, level - 1, u, v);
        }
    }
}

/// A walk ends at a level no higher than the one it starts from.
proof fn lemma_lookup_level_bound<E: PageTableEntryTrait>(mem: &PageTableMem<E>, pa: Paddr, level: int, v: Vaddr)
    requires
        1 <= level,
    ensures
        mem.lookup(pa, level, v).1 <= level,
    decreases level,
{
    if level > 1 {
        if let Child::PageTable(raw) = mem.node(pa).table@[pte_index_spec(v, level) as int] {
            lemma_lookup_level_bound(mem, raw.raw, level - 1, v);
        }
    }
}

impl<M: PageTableMode, E: PageTableEntryTrait> Cursor<M, E> {
    /// What a query at the cursor reports covers the whole page of the level
    /// where the walk ends, a page of one of the page sizes: a report of
    /// nothing mapped means that no address of that page is mapped, and a
    /// mapped report gives the translation of every address of the page.
    pub proof fn lemma_query_item_covers(&self, mem: &PageTableMem<E>, fm: &FrameManager)
        requires
            self.wf(mem),
            mem.wf(fm),
            self.va < self.barrier_va.end,
        ensures
            match item_of(self.view(mem, self.va), self.va) {
                PageTableItem::NotMapped { va, len } => {
                    &&& va == self.va
                    &&& len == 0x1000 || len == 0x20_0000 || len == 0x4000_0000 || len == 0x80_0000_0000
                    &&& len == ps(self.view(mem, self.va).1)
                    &&& forall|u: Vaddr| u as int / len as int == va as int / len as int
                        ==> #[trigger] translate(self.view(mem, u), u) is None
                },
                PageTableItem::MappedUntracked { va, pa, len, prop } => {
                    &&& va == self.va
                    &&& len == 0x1000 || len == 0x20_0000 || len == 0x4000_0000 || len == 0x80_0000_0000
                    &&& len == ps(self.view(mem, self.va).1)
                    &&& forall|u: Vaddr| u as int / len as int == va as int / len as int
                        ==> #[trigger] translate(self.view(mem, u), u) == Some(((pa + u as int % len as int) as Paddr, prop))
                },
                PageTableItem::Mapped { va, page, prop } => {
                    &&& va == self.va
                    &&& forall|u: Vaddr| u as int / 4096 == va as int / 4096
                        ==> #[trigger] translate(self.view(mem, u), u) == Some(((page.paddr() + u as int % 4096) as Paddr, prop))
                },
            },
    {
        let g = self.guard_node().raw;
        let gl = self.guard_level as int;
        assert(self.guards@[gl - 1] is Some);
        lemma_lookup_not_node(mem, fm, g, gl, self.va);
        lemma_lookup_frame_valid(mem, fm, g, gl, self.va);
        lemma_page_size_values();
        let leaf = self.view(mem, self.va);
        let l = leaf.1;
        assert(1 <= l <= NR_LEVELS);
        assert(ps(l) == 0x1000 || ps(l) == 0x20_0000 || ps(l) == 0x4000_0000 || ps(l) == 0x80_0000_0000);
        assert(ps(l) < 0x1_0000_0000_0000_0000int);
        assert forall|u: Vaddr| u as int / ps(l) == self.va as int / ps(l) implies #[trigger] self.view(mem, u) == leaf by {
            lemma_same_slot_lookup(mem, g, gl, u, self.va);
        }
    }
}

/// A frame that a walk finds is live.
pub proof fn lemma_lookup_frame_valid<E: PageTableEntryTrait>(mem: &PageTableMem<E>, fm: &FrameManager, pa: Paddr, level: int, u: Vaddr)
    requires
        mem.wf(fm),
        1 <= level <= NR_LEVELS,
        mem.is_node(pa, level),
    ensures
        mem.lookup(pa, level, u).0 matches Child::Frame(f, _) ==> f.valid(fm) && mem.lookup(pa, level, u).1 == 1,
    decreases level,
{
    let i = pte_index_spec(u, level) as int;
    assert(0 <= i < 512) by {
        vstd::arithmetic::div_mod::lemma_mod_bound((u as nat / page_size_spec(level)) as int, 512);
    }
    assert(mem.node_wf(fm, frame_of(pa)));
    let c = mem.node(pa).table@[i];
    assert(mem.child_ok(fm, c, mem.node(pa).meta.level, mem.node(pa).meta.is_tracked));
    if let Child::PageTable(raw) = c {
        if level > 1 {
            lemma_lookup_frame_valid(mem, fm, raw.raw, level - 1, u);
        }
    }
}

impl<M: PageTableMode, E: PageTableEntryTrait> Cursor<M, E> {
    /// A change of an entry whose range does not hold `u` leaves the view
    /// of `u` as it was.
    pub proof fn lemma_view_entry_changed(&self, m1: &PageTableMem<E>, m2: &PageTableMem<E>, fm: &FrameManager, k: int, idx: int, u: Vaddr)
        requires
            self.wf(m1),
            m1.wf(fm),
            self.in_guard_range(u),
            entry_changed(m1, m2, k, idx),
            0 <= k < m1.nodes@.len(),
            m1.nodes@[k] is Some,
            range_number(u as int, (m1.nodes@[k]->Some_0).meta.level - 1) != (m1.nodes@[k]->Some_0).prefix@ * 512 + idx,
        ensures
            self.view(m2, u) == self.view(m1, u),
    {
        let gl = self.guard_level as int;
        assert(self.guards@[gl - 1] is Some);
        lemma_same_prefix_above(u, self.barrier_va.start, gl + 1, NR_LEVELS + 1);
        lemma_range_number_same(u, self.barrier_va.start, gl + 1);
        lemma_lookup_entry_changed(m1, m2, fm, k, idx, self.guard_node().raw, gl, u);
    }

    /// Changing a frame entry of level 1 leaves the view of an address as it
    /// was where the view finds nothing mapped.
    pub proof fn lemma_view_unmapped_kept(&self, m1: &PageTableMem<E>, m2: &PageTableMem<E>, fm: &FrameManager, k: int, idx: int, u: Vaddr)
        requires
            self.wf(m1),
            m1.wf(fm),
            self.in_guard_range(u),
            entry_changed(m1, m2, k, idx),
            0 <= k < m1.nodes@.len(),
            m1.nodes@[k] is Some,
            (m1.nodes@[k]->Some_0).meta.level == 1,
            0 <= idx < 512,
            (m1.nodes@[k]->Some_0).table@[idx] is Frame,
            self.view(m1, u).0 is Empty,
        ensures
            self.view(m2, u) == self.view(m1, u),
    {
        let gl = self.guard_level as int;
        assert(self.guards@[gl - 1] is Some);
        lemma_same_prefix_above(u, self.barrier_va.start, gl + 1, NR_LEVELS + 1);
        lemma_range_number_same(u, self.barrier_va.start, gl + 1);
        lemma_lookup_reaches(m1, m2, fm, k, idx, self.guard_node().raw, gl, u);
        if self.view(m2, u) != self.view(m1, u) {
            let kpa = (k * PAGE_SIZE) as Paddr;
            assert(m1.node_wf(fm, k));
            assert(kpa == k * 4096);
            assert(frame_of(kpa) == k) by {
                vstd::arithmetic::div_mod::lemma_div_multiples_vanish(k, 4096);
            }
            lemma_range_number_step(u, 1);
            lemma_page_size_values();
            if range_number(u as int, 0) != (m1.nodes@[k]->Some_0).prefix@ * 512 + idx {
                lemma_lookup_entry_changed(m1, m2, fm, k, idx, self.guard_node().raw, gl, u);
            } else {
                assert(pte_index_spec(u, 1) == idx);
                assert(m1.lookup(kpa, 1, u).0 is Frame);
            }
        }
    }
}


/// The leaf `now` maps the frame of the frame leaf `was`, at the same level,
/// with a property that `op` gives for the old one.
pub open spec fn frame_reprotected<F: Fn(PageProperty) -> PageProperty>(op: &F, was: (Child, int), now: (Child, int)) -> bool {
    match (was.0, now.0) {
        (Child::Frame(f, p), Child::Frame(g, q)) => g == f && now.1 == was.1 && op.ensures((p,), q),
        _ => false,
    }
}

/// Whether copying from the source cursor `s0` reaches the page at `u`: the
/// destination, which lands just past each page it copies, has not reached
/// its end `this_end` after any earlier page of the source that maps a frame.
pub open spec fn copy_reaches<M: PageTableMode, E: PageTableEntryTrait>(
    s0: Cursor<M, E>,
    m0: &PageTableMem<E>,
    u: Vaddr,
    this_end: int,
) -> bool {
    forall|w: Vaddr| s0.va <= w < u - u % PAGE_SIZE && (#[trigger] s0.view(m0, w).0 is Frame)
        ==> w - w % PAGE_SIZE + PAGE_SIZE < this_end
}

/// Whether copying from `s0` copies the page at `p`, and it holds the frame
/// with index `i`.
pub open spec fn copies_frame<M: PageTableMode, E: PageTableEntryTrait>(
    s0: Cursor<M, E>,
    m0: &PageTableMem<E>,
    i: int,
    p: int,
    this_end: int,
) -> bool {
    &&& s0.view(m0, p as Vaddr).0 matches Child::Frame(f, _) && f.index() == i
    &&& copy_reaches(s0, m0, p as Vaddr, this_end)
}

/// The number of base pages in `[lo, hi)` that copying from `s0` copies
/// and that hold the frame with index `i`.
pub open spec fn copies_of<M: PageTableMode, E: PageTableEntryTrait>(
    s0: Cursor<M, E>,
    m0: &PageTableMem<E>,
    i: int,
    lo: int,
    hi: int,
    this_end: int,
) -> nat
    decreases hi - lo,
{
    if hi - PAGE_SIZE < lo {
        0
    } else {
        copies_of(s0, m0, i, lo, hi - PAGE_SIZE, this_end)
            + if copies_frame(s0, m0, i, hi - PAGE_SIZE, this_end) { 1nat } else { 0nat }
    }
}

/// Pages that are not copied add nothing to the count.
pub proof fn lemma_copies_same<M: PageTableMode, E: PageTableEntryTrait>(
    s0: Cursor<M, E>,
    m0: &PageTableMem<E>,
    i: int,
    lo: int,
    a: int,
    b: int,
    this_end: int,
)
    requires
        lo <= a <= b,
        (a - lo) % 4096 == 0,
        (b - lo) % 4096 == 0,
        forall|p: int| a <= p < b && (p - lo) % 4096 == 0 ==> !#[trigger] copies_frame(s0, m0, i, p, this_end),
    ensures
        copies_of(s0, m0, i, lo, b, this_end) == copies_of(s0, m0, i, lo, a, this_end),
    decreases b - a,
{
    if b > a {
        assert(b - 4096 >= a) by {
            vstd::arithmetic::div_mod::lemma_fundamental_div_mod(b - lo, 4096);
            vstd::arithmetic::div_mod::lemma_fundamental_div_mod(a - lo, 4096);
        }
        assert((b - 4096 - lo) % 4096 == 0) by {
            vstd::arithmetic::div_mod::lemma_fundamental_div_mod(b - lo, 4096);
            vstd::arithmetic::div_mod::lemma_fundamental_div_mod(b - 4096 - lo, 4096);
        }
        assert(!copies_frame(s0, m0, i, b - 4096, this_end));
        lemma_copies_same(s0, m0, i, lo, a, b - 4096, this_end);
    }
}

/// Facts on base page boundaries of addresses.
pub proof fn lemma_page_bounds(u: int, x: int)
    requires
        0 <= u,
        0 <= x,
        x % 4096 == 0,
    ensures
        x <= u < x + 4096 ==> u - u % 4096 == x,
        u < x ==> u - u % 4096 + 4096 <= x,
        x <= u ==> x <= u - u % 4096,
        u % 4096 == 0 ==> (u - x) % 4096 == 0,
{
    vstd::arithmetic::div_mod::lemma_fundamental_div_mod(u, 4096);
    vstd::arithmetic::div_mod::lemma_fundamental_div_mod(x, 4096);
    if u % 4096 == 0 {
        let a = u / 4096;
        let b = x / 4096;
        assert(u - x == 4096 * (a - b));
        vstd::arithmetic::div_mod::lemma_mod_multiples_basic(a - b, 4096);
    }
}

/// What copying has done so far, with the source at `sc` and the
/// destination at `dc`: the destination lies past every frame page copied,
/// and just past the last one if it moved; every frame page behind the
/// source was reached; and each frame in use before has gained one
/// reference per page copied that holds it.
pub open spec fn copy_tally<M: PageTableMode, E: PageTableEntryTrait>(
    sc: Cursor<M, E>,
    dc: Cursor<M, E>,
    m0: &PageTableMem<E>,
    fm0: &FrameManager,
    fm: &FrameManager,
    s0: Cursor<M, E>,
    d0: Cursor<M, E>,
    src_end: int,
    this_end: int,
) -> bool {
    &&& forall|w: Vaddr| s0.va <= w < sc.va && w < src_end && (#[trigger] s0.view(m0, w).0 is Frame) ==> w < dc.va
    &&& (dc.va == d0.va || exists|w: Vaddr| s0.va <= w < sc.va && w < src_end
        && (#[trigger] s0.view(m0, w).0 is Frame) && w - w % PAGE_SIZE + PAGE_SIZE == dc.va)
    &&& forall|u: Vaddr| s0.va <= u < sc.va && u < src_end && (#[trigger] s0.view(m0, u).0 is Frame)
        ==> copy_reaches(s0, m0, u, this_end)
    &&& forall|i: int| 0 <= i < fm0.nr_frames() && #[trigger] fm0.in_use(i) ==> fm.in_use(i)
        && fm.ref_count_of(i) == fm0.ref_count_of(i) + copies_of(s0, m0, i, s0.va as int,
            if sc.va < src_end { sc.va as int } else { src_end }, this_end)
}

/// Moving the source past a slot that maps no frame keeps the tally.
pub proof fn lemma_copy_skip_tally<M: PageTableMode, E: PageTableEntryTrait>(
    c0: Cursor<M, E>,
    c1: Cursor<M, E>,
    dc: Cursor<M, E>,
    m0: &PageTableMem<E>,
    fm0: &FrameManager,
    fm: &FrameManager,
    s0: Cursor<M, E>,
    d0: Cursor<M, E>,
    src_end: int,
    this_end: int,
)
    requires
        copy_tally(c0, dc, m0, fm0, fm, s0, d0, src_end, this_end),
        s0.va <= c0.va < src_end,
        c0.va <= c1.va,
        s0.va % 4096 == 0,
        c0.va % 4096 == 0,
        c1.va % 4096 == 0,
        src_end % 4096 == 0,
        forall|u: Vaddr| c0.va <= u < c1.va && u < src_end ==> !(#[trigger] s0.view(m0, u).0 is Frame),
    ensures
        copy_tally(c1, dc, m0, fm0, fm, s0, d0, src_end, this_end),
{
    let b = if c1.va < src_end { c1.va as int } else { src_end };
    assert forall|u: Vaddr| c0.va <= u < b implies !(#[trigger] s0.view(m0, u).0 is Frame) by {}
    lemma_copy_count_skip(s0, m0, fm0, fm, c0.va as int, b, this_end);
    if dc.va != d0.va {
        let w = choose|w: Vaddr| s0.va <= w < c0.va && w < src_end
            && (#[trigger] s0.view(m0, w).0 is Frame) && w - w % PAGE_SIZE + PAGE_SIZE == dc.va;
        assert(s0.va <= w < c1.va && w < src_end && s0.view(m0, w).0 is Frame);
    }
}

/// Copying the frame page at the source cursor `c0`, with the destination
/// landing just past it, keeps the tally.
pub proof fn lemma_copy_frame_tally<M: PageTableMode, E: PageTableEntryTrait>(
    c0: Cursor<M, E>,
    c1: Cursor<M, E>,
    d_a: Cursor<M, E>,
    d_c: Cursor<M, E>,
    m0: &PageTableMem<E>,
    fm0: &FrameManager,
    fm_a: &FrameManager,
    fm_b: &FrameManager,
    fm_c: &FrameManager,
    s0: Cursor<M, E>,
    d0: Cursor<M, E>,
    src_end: int,
    this_end: int,
    page: Frame<Unknown>,
)
    requires
        copy_tally(c0, d_a, m0, fm0, fm_a, s0, d0, src_end, this_end),
        s0.va <= c0.va,
        c0.va + 4096 <= src_end,
        s0.va % 4096 == 0,
        c0.va % 4096 == 0,
        d_a.va % 4096 == 0,
        d_a.va < this_end,
        c1.va == c0.va + 4096,
        d_c.va == c0.va + 4096,
        s0.view(m0, c0.va).0 matches Child::Frame(f, _) && f == page,
        0 <= page.index() < fm_a.nr_frames(),
        fm_a.ref_count_of(page.index()) < REF_COUNT_MAX,
        fm0.nr_frames() == fm_a.nr_frames(),
        fm_b.ref_counts() == fm_a.ref_counts().update(page.index(), (fm_a.ref_count_of(page.index()) + 1) as u32),
        fm_c.nr_frames() == fm_b.nr_frames(),
        forall|i: int| 0 <= i < fm_b.nr_frames() && #[trigger] fm_b.in_use(i) ==> fm_c.ref_count_of(i) == fm_b.ref_count_of(i),
    ensures
        copy_tally(c1, d_c, m0, fm0, fm_c, s0, d0, src_end, this_end),
{
    let va = c0.va;
    lemma_page_bounds(va as int, va as int);
    lemma_page_bounds(d_a.va as int, va as int);
    // The page at the source is reached: every earlier frame page lies
    // before the destination, which had not reached its end.
    assert forall|u: Vaddr| va <= u < c1.va implies copy_reaches(s0, m0, u, this_end) by {
        lemma_page_bounds(u as int, va as int);
        assert forall|w: Vaddr| s0.va <= w < u - u % PAGE_SIZE && (#[trigger] s0.view(m0, w).0 is Frame)
            implies w - w % PAGE_SIZE + PAGE_SIZE < this_end by {
            assert(w < d_a.va);
            lemma_page_bounds(w as int, d_a.va as int);
        }
    }
    assert(copy_reaches(s0, m0, va, this_end));
    assert forall|w: Vaddr| s0.va <= w < c1.va && w < src_end && (#[trigger] s0.view(m0, w).0 is Frame) implies w < d_c.va by {}
    assert(s0.va <= va < c1.va && va < src_end && s0.view(m0, va).0 is Frame && va - va % PAGE_SIZE + PAGE_SIZE == d_c.va);
    assert forall|u: Vaddr| s0.va <= u < c1.va && u < src_end && (#[trigger] s0.view(m0, u).0 is Frame)
        implies copy_reaches(s0, m0, u, this_end) by {
        if u >= va {
            assert(copy_reaches(s0, m0, u, this_end));
        }
    }
    lemma_inc_keeps_in_use(fm_a, fm_b, page.index());
    assert forall|i: int| 0 <= i < fm0.nr_frames() && #[trigger] fm0.in_use(i) implies fm_c.in_use(i)
        && fm_c.ref_count_of(i) == fm0.ref_count_of(i) + copies_of(s0, m0, i, s0.va as int,
            if c1.va < src_end { c1.va as int } else { src_end }, this_end) by {
        assert(fm_a.in_use(i));
        assert(fm_b.in_use(i));
        assert(fm_c.ref_count_of(i) == fm_b.ref_count_of(i));
        let hi = c1.va as int;
        assert(copies_of(s0, m0, i, s0.va as int, hi, this_end)
            == copies_of(s0, m0, i, s0.va as int, va as int, this_end)
                + if copies_frame(s0, m0, i, va as int, this_end) { 1nat } else { 0nat });
        assert(copies_frame(s0, m0, i, va as int, this_end) == (i == page.index()));
        if i == page.index() {
            assert(fm_b.ref_count_of(i) == fm_a.ref_count_of(i) + 1);
        } else {
            assert(fm_b.ref_count_of(i) == fm_a.ref_count_of(i));
        }
    }
}

/// Once copying stops, every frame page of the source range behind the
/// source cursor `sl` was reached and none ahead of it, and the reference
/// counts tally the whole range.
pub proof fn lemma_copy_tally_done<M: PageTableMode, E: PageTableEntryTrait>(
    sl: Cursor<M, E>,
    dl: Cursor<M, E>,
    m0: &PageTableMem<E>,
    fm0: &FrameManager,
    fm: &FrameManager,
    s0: Cursor<M, E>,
    d0: Cursor<M, E>,
    src_end: int,
    this_end: int,
)
    requires
        copy_tally(sl, dl, m0, fm0, fm, s0, d0, src_end, this_end),
        s0.va <= sl.va,
        s0.va % 4096 == 0,
        sl.va % 4096 == 0,
        src_end % 4096 == 0,
        this_end - d0.va == src_end - s0.va,
        sl.va < src_end ==> dl.va >= this_end,
        src_end <= u64::MAX,
    ensures
        forall|u: Vaddr| s0.va <= u < src_end && (#[trigger] s0.view(m0, u).0 is Frame)
            ==> (copy_reaches(s0, m0, u, this_end) <==> u < sl.va),
        forall|i: int| 0 <= i < fm0.nr_frames() && #[trigger] fm0.in_use(i)
            ==> fm.ref_count_of(i) == fm0.ref_count_of(i) + copies_of(s0, m0, i, s0.va as int, src_end, this_end),
{
    assert forall|u: Vaddr| s0.va <= u < src_end && sl.va <= u && (#[trigger] s0.view(m0, u).0 is Frame)
        implies !copy_reaches(s0, m0, u, this_end) by {
        let w = choose|w: Vaddr| s0.va <= w < sl.va && w < src_end
            && (#[trigger] s0.view(m0, w).0 is Frame) && w - w % PAGE_SIZE + PAGE_SIZE == dl.va;
        assert(s0.va <= w < sl.va && w < src_end && s0.view(m0, w).0 is Frame && w - w % PAGE_SIZE + PAGE_SIZE == dl.va);
        lemma_page_bounds(u as int, sl.va as int);
    }
    if sl.va < src_end {
        assert forall|i: int| 0 <= i < fm0.nr_frames() && #[trigger] fm0.in_use(i)
            implies fm.ref_count_of(i) == fm0.ref_count_of(i) + copies_of(s0, m0, i, s0.va as int, src_end, this_end) by {
            lemma_page_bounds(sl.va as int, s0.va as int);
            lemma_page_bounds(src_end, s0.va as int);
            assert forall|p: int| sl.va <= p < src_end && (p - s0.va) % 4096 == 0
                implies !#[trigger] copies_frame(s0, m0, i, p, this_end) by {
                assert((p as Vaddr) as int == p);
                if s0.view(m0, p as Vaddr).0 is Frame {
                    assert(!copy_reaches(s0, m0, p as Vaddr, this_end));
                }
            }
            lemma_copies_same(s0, m0, i, s0.va as int, sl.va as int, src_end, this_end);
        }
    }
}

/// Moving the source past pages that map no frame keeps the reference
/// counts in step with the pages copied so far.
pub proof fn lemma_copy_count_skip<M: PageTableMode, E: PageTableEntryTrait>(
    s0: Cursor<M, E>,
    m0: &PageTableMem<E>,
    fm0: &FrameManager,
    fm: &FrameManager,
    a: int,
    b: int,
    this_end: int,
)
    requires
        s0.va <= a <= b <= u64::MAX,
        s0.va % 4096 == 0,
        a % 4096 == 0,
        b % 4096 == 0,
        forall|u: Vaddr| a <= u < b ==> !(#[trigger] s0.view(m0, u).0 is Frame),
        forall|i: int| 0 <= i < fm0.nr_frames() && #[trigger] fm0.in_use(i) ==> fm.in_use(i)
            && fm.ref_count_of(i) == fm0.ref_count_of(i) + copies_of(s0, m0, i, s0.va as int, a, this_end),
    ensures
        forall|i: int| 0 <= i < fm0.nr_frames() && #[trigger] fm0.in_use(i) ==> fm.in_use(i)
            && fm.ref_count_of(i) == fm0.ref_count_of(i) + copies_of(s0, m0, i, s0.va as int, b, this_end),
{
    lemma_page_bounds(a, s0.va as int);
    lemma_page_bounds(b, s0.va as int);
    assert forall|i: int| 0 <= i < fm0.nr_frames() && #[trigger] fm0.in_use(i) implies fm.in_use(i)
        && fm.ref_count_of(i) == fm0.ref_count_of(i) + copies_of(s0, m0, i, s0.va as int, b, this_end) by {
        assert forall|p: int| a <= p < b && (p - s0.va) % 4096 == 0 implies !#[trigger] copies_frame(s0, m0, i, p, this_end) by {
            assert((p as Vaddr) as int == p);
            assert(!(s0.view(m0, p as Vaddr).0 is Frame));
        }
        lemma_copies_same(s0, m0, i, s0.va as int, a, b, this_end);
    }
}

/// The number of base pages in `[lo, hi)` where the cursor `s0` finds a
/// frame mapped in `m0`.
pub open spec fn frame_pages<M: PageTableMode, E: PageTableEntryTrait>(
    s0: Cursor<M, E>,
    m0: &PageTableMem<E>,
    lo: int,
    hi: int,
) -> nat
    decreases hi - lo,
{
    if hi - lo < PAGE_SIZE {
        0
    } else {
        (if s0.view(m0, lo as Vaddr).0 is Frame { 1nat } else { 0nat }) + frame_pages(s0, m0, lo + PAGE_SIZE, hi)
    }
}

/// Pages that map no frame add nothing to the count.
pub proof fn lemma_frame_pages_skip<M: PageTableMode, E: PageTableEntryTrait>(
    s0: Cursor<M, E>,
    m0: &PageTableMem<E>,
    a: int,
    b: int,
    hi: int,
)
    requires
        0 <= a <= b <= hi <= u64::MAX,
        a % 4096 == 0,
        b % 4096 == 0,
        hi % 4096 == 0,
        forall|u: Vaddr| a <= u < b && u < hi ==> !(#[trigger] s0.view(m0, u).0 is Frame),
    ensures
        frame_pages(s0, m0, a, hi) == frame_pages(s0, m0, b, hi),
    decreases b - a,
{
    if a < b {
        assert(b - a >= 4096) by {
            vstd::arithmetic::div_mod::lemma_fundamental_div_mod(a, 4096);
            vstd::arithmetic::div_mod::lemma_fundamental_div_mod(b, 4096);
        }
        assert((a as Vaddr) as int == a);
        assert(!(s0.view(m0, a as Vaddr).0 is Frame));
        assert((a + 4096) % 4096 == 0) by {
            vstd::arithmetic::div_mod::lemma_fundamental_div_mod(a, 4096);
            vstd::arithmetic::div_mod::lemma_fundamental_div_mod(a + 4096, 4096);
        }
        lemma_frame_pages_skip(s0, m0, a + 4096, b, hi);
    }
}

/// The number of base pages from `va` up to `end`.
pub open spec fn pages_left(va: int, end: int) -> int {
    if va < end {
        (end - va) / PAGE_SIZE as int
    } else {
        0
    }
}

/// What copying mappings from `s0` to `d0` keeps while the source cursor
/// `sc` has reached its address and the destination cursor is `dc`: both
/// cursors are well formed, there is room for the nodes and reference
/// counts still needed; ahead, the source keeps its mappings and the
/// destination is free where the source maps a frame; behind, the frames
/// are mapped in both with their new properties, and every address where
/// the source mapped no frame translates as before in both.
pub open spec fn copy_inv<M: PageTableMode, E: PageTableEntryTrait, F: Fn(PageProperty) -> PageProperty>(
    dc: Cursor<M, E>,
    sc: Cursor<M, E>,
    mem: &PageTableMem<E>,
    fm: &FrameManager,
    m0: &PageTableMem<E>,
    op: &F,
    s0: Cursor<M, E>,
    d0: Cursor<M, E>,
    src_end: Vaddr,
) -> bool {
    &&& dc.wf(mem)
    &&& sc.wf(mem)
    &&& dc.same_frame(&d0)
    &&& sc.same_frame(&s0)
    &&& fm.wf()
    &&& mem.wf(fm)
    &&& s0.va <= sc.va
    &&& s0.va <= src_end <= s0.barrier_va.end
    &&& src_end % PAGE_SIZE == 0
    &&& s0.va % PAGE_SIZE == 0
    &&& s0.barrier_va.end + ps(s0.guard_level as int) <= u64::MAX + 1
    &&& d0.barrier_va.start <= s0.va
    &&& s0.barrier_va.start <= s0.va
    &&& src_end <= d0.barrier_va.end
    &&& subtree_tracked(mem, d0.guard_node().raw, d0.guard_level as int)
    &&& fm.can_alloc((3 * frame_pages(s0, m0, sc.va as int, src_end as int)) as nat)
    &&& forall|u: Vaddr| sc.va <= u < src_end ==> {
        let leaf = #[trigger] s0.view(m0, u).0;
        &&& !(leaf is Untracked)
        &&& leaf is Frame ==> d0.view(mem, u).0 is Empty
        &&& leaf matches Child::Frame(f, _) ==> fm.ref_count_of(f.index()) + pages_left(sc.va as int, src_end as int) < REF_COUNT_MAX
        &&& !(leaf is Empty) ==> s0.view(mem, u) == s0.view(m0, u)
    }
    &&& forall|u: Vaddr| s0.va <= u < src_end && !(#[trigger] s0.view(m0, u).0 is Frame) ==> {
        &&& translate(s0.view(mem, u), u) == translate(s0.view(m0, u), u)
        &&& translate(d0.view(mem, u), u) == translate(d0.view(m0, u), u)
    }
    &&& forall|u: Vaddr| s0.in_guard_range(u) && !(s0.va <= u < src_end)
        ==> #[trigger] translate(s0.view(mem, u), u) == translate(s0.view(m0, u), u)
    &&& forall|u: Vaddr| d0.in_guard_range(u) && !(s0.va <= u < src_end)
        ==> #[trigger] translate(d0.view(mem, u), u) == translate(d0.view(m0, u), u)
    &&& forall|u: Vaddr| s0.va <= u < src_end && u < sc.va && (#[trigger] s0.view(m0, u).0 is Frame) ==> {
        &&& frame_reprotected(op, s0.view(m0, u), s0.view(mem, u))
        &&& frame_reprotected(op, s0.view(m0, u), d0.view(mem, u))
    }
}

impl<M: PageTableMode, E: PageTableEntryTrait> Cursor<M, E> {
    /// Skipping a slot of the source that maps nothing keeps copying on
    /// track.
    pub proof fn lemma_copy_skip<F: Fn(PageProperty) -> PageProperty>(
        &self,
        c1: &Self,
        dc: Self,
        mem: &PageTableMem<E>,
        fm: &FrameManager,
        m0: &PageTableMem<E>,
        op: &F,
        s0: Self,
        d0: Self,
        src_end: Vaddr,
    )
        requires
            copy_inv(dc, *self, mem, fm, m0, op, s0, d0, src_end),
            self.va < src_end,
            c1.wf(mem),
            c1.same_frame(self),
            c1.va == self.next_slot_va(),
            ({
                let c = mem.node(self.cur_node().raw).table@[pte_index_spec(self.va, self.level as int) as int];
                ||| c is Empty
                ||| (c matches Child::PageTable(raw) && mem.node(raw.raw).meta.nr_children == 0)
            }),
        ensures
            copy_inv(dc, *c1, mem, fm, m0, op, s0, d0, src_end),
            forall|u: Vaddr| self.va <= u < c1.va && u < src_end ==> !(#[trigger] s0.view(m0, u).0 is Frame),
    {
        let l = self.level as int;
        let p = ps(l);
        lemma_page_size_step(l);
        let base = self.va - self.va as int % p;
        vstd::arithmetic::div_mod::lemma_fundamental_div_mod(self.va as int, p);
        vstd::arithmetic::div_mod::lemma_mod_bound(self.va as int, p);
        assert(c1.va > self.va);
        assert forall|u: Vaddr| self.va <= u < c1.va && u < src_end implies !(#[trigger] s0.view(m0, u).0 is Frame) by {
            lemma_in_slot(self.va, u, base, p);
            self.lemma_slot_unmapped(mem, fm, u);
            assert(s0.view(mem, u) == self.view(mem, u));
        }
        if c1.va < src_end {
            lemma_frame_pages_skip(s0, m0, self.va as int, c1.va as int, src_end as int);
        } else {
            lemma_can_alloc_fewer(fm, (3 * frame_pages(s0, m0, self.va as int, src_end as int)) as nat, 0);
        }
    }
}


/// What copying keeps once the property of the source page at the address
/// of `sc` has changed and before the page is mapped in the destination:
/// as `copy_inv`, with that page counted as done in the source only.
pub open spec fn copy_mid<M: PageTableMode, E: PageTableEntryTrait, F: Fn(PageProperty) -> PageProperty>(
    dc: Cursor<M, E>,
    sc: Cursor<M, E>,
    mem: &PageTableMem<E>,
    fm: &FrameManager,
    m0: &PageTableMem<E>,
    op: &F,
    s0: Cursor<M, E>,
    d0: Cursor<M, E>,
    src_end: Vaddr,
) -> bool {
    &&& dc.wf(mem)
    &&& sc.wf(mem)
    &&& dc.same_frame(&d0)
    &&& sc.same_frame(&s0)
    &&& fm.wf()
    &&& mem.wf(fm)
    &&& s0.va <= sc.va
    &&& sc.va + PAGE_SIZE <= src_end <= s0.barrier_va.end
    &&& sc.level == 1
    &&& src_end % PAGE_SIZE == 0
    &&& s0.va % PAGE_SIZE == 0
    &&& s0.barrier_va.end + ps(s0.guard_level as int) <= u64::MAX + 1
    &&& d0.barrier_va.start <= s0.va
    &&& s0.barrier_va.start <= s0.va
    &&& src_end <= d0.barrier_va.end
    &&& subtree_tracked(mem, d0.guard_node().raw, d0.guard_level as int)
    &&& fm.can_alloc((3 * frame_pages(s0, m0, sc.va as int, src_end as int)) as nat)
    &&& s0.view(m0, sc.va).0 is Frame
    &&& frame_reprotected(op, s0.view(m0, sc.va), s0.view(mem, sc.va))
    &&& d0.view(mem, sc.va).0 is Empty
    &&& forall|u: Vaddr| sc.va + PAGE_SIZE <= u < src_end ==> {
        let leaf = #[trigger] s0.view(m0, u).0;
        &&& !(leaf is Untracked)
        &&& leaf is Frame ==> d0.view(mem, u).0 is Empty
        &&& leaf matches Child::Frame(f, _) ==> fm.ref_count_of(f.index()) + pages_left(sc.va + PAGE_SIZE, src_end as int) < REF_COUNT_MAX
        &&& !(leaf is Empty) ==> s0.view(mem, u) == s0.view(m0, u)
    }
    &&& forall|u: Vaddr| s0.va <= u < src_end && !(#[trigger] s0.view(m0, u).0 is Frame) ==> {
        &&& translate(s0.view(mem, u), u) == translate(s0.view(m0, u), u)
        &&& translate(d0.view(mem, u), u) == translate(d0.view(m0, u), u)
    }
    &&& forall|u: Vaddr| s0.in_guard_range(u) && !(s0.va <= u < src_end)
        ==> #[trigger] translate(s0.view(mem, u), u) == translate(s0.view(m0, u), u)
    &&& forall|u: Vaddr| d0.in_guard_range(u) && !(s0.va <= u < src_end)
        ==> #[trigger] translate(d0.view(mem, u), u) == translate(d0.view(m0, u), u)
    &&& forall|u: Vaddr| s0.va <= u < src_end && u < sc.va && (#[trigger] s0.view(m0, u).0 is Frame) ==> {
        &&& frame_reprotected(op, s0.view(m0, u), s0.view(mem, u))
        &&& frame_reprotected(op, s0.view(m0, u), d0.view(mem, u))
    }
}

impl<M: PageTableMode, E: PageTableEntryTrait> Cursor<M, E> {
    /// The source finds a frame at its address, which it found there
    /// before copying began.
    pub proof fn lemma_copy_frame_found<F: Fn(PageProperty) -> PageProperty>(
        &self,
        dc: Self,
        mem: &PageTableMem<E>,
        fm: &FrameManager,
        m0: &PageTableMem<E>,
        op: &F,
        s0: Self,
        d0: Self,
        src_end: Vaddr,
    )
        requires
            copy_inv(dc, *self, mem, fm, m0, op, s0, d0, src_end),
            self.va < src_end,
            !(mem.node(self.cur_node().raw).table@[pte_index_spec(self.va, self.level as int) as int] is PageTable),
            !(mem.node(self.cur_node().raw).table@[pte_index_spec(self.va, self.level as int) as int] is Empty),
        ensures
            s0.view(m0, self.va) == (mem.node(self.cur_node().raw).table@[pte_index_spec(self.va, self.level as int) as int], self.level as int),
            !(s0.view(m0, self.va).0 is Untracked),
    {
        self.lemma_view_at_cur(mem, self.level as int);
        assert(s0.view(mem, self.va) == self.view(mem, self.va));
        let c = mem.node(self.cur_node().raw).table@[pte_index_spec(self.va, self.level as int) as int];
        assert(self.view(mem, self.va) == (c, self.level as int));
        if s0.view(m0, self.va).0 is Empty {
            assert(translate(s0.view(mem, self.va), self.va) == translate(s0.view(m0, self.va), self.va));
            assert(false);
        }
    }

    /// Changing the property of the source page keeps copying on track, with
    /// the page done in the source.
    pub proof fn lemma_copy_protect<F: Fn(PageProperty) -> PageProperty>(
        &self,
        dc: Self,
        m_a: &PageTableMem<E>,
        m_b: &PageTableMem<E>,
        fm_a: &FrameManager,
        fm_b: &FrameManager,
        m0: &PageTableMem<E>,
        op: &F,
        s0: Self,
        d0: Self,
        src_end: Vaddr,
        page: Frame<Unknown>,
        prop: PageProperty,
        p1: PageProperty,
        pte: E,
    )
        requires
            copy_inv(dc, *self, m_a, fm_a, m0, op, s0, d0, src_end),
            self.va < src_end,
            m_a.node(self.cur_node().raw).table@[pte_index_spec(self.va, self.level as int) as int] == Child::Frame(page, prop),
            fm_b.wf(),
            fm_b.nr_frames() == fm_a.nr_frames(),
            fm_b.allocator_spec() == fm_a.allocator_spec(),
            fm_b.ref_counts() == fm_a.ref_counts().update(page.index(), (fm_a.ref_count_of(page.index()) + 1) as u32),
            m_a.wf(fm_b),
            m_b.wf(fm_b),
            m_b.child_replaced(m_a, self.cur_node().raw, pte_index_spec(self.va, self.level as int) as int,
                super::node::with_prop(Child::Frame(page, prop), p1), pte),
            op.ensures((prop,), p1),
        ensures
            copy_mid(dc, *self, m_b, fm_b, m0, op, s0, d0, src_end),
    {
        let l = self.level as int;
        let k = frame_of(self.cur_node().raw);
        let idx = pte_index_spec(self.va, l) as int;
        lemma_page_size_values();
        assert(self.guards@[l - 1] is Some);
        assert(m_a.node_wf(fm_a, k));
        assert(0 <= idx < 512) by {
            vstd::arithmetic::div_mod::lemma_mod_bound((self.va as nat / page_size_spec(l)) as int, 512);
        }
        assert(m_a.child_ok(fm_a, Child::Frame(page, prop), m_a.node(self.cur_node().raw).meta.level, m_a.node(self.cur_node().raw).meta.is_tracked));
        assert(l == 1);
        self.lemma_copy_frame_found(dc, m_a, fm_a, m0, op, s0, d0, src_end);
        let va = self.va;
        assert(va + PAGE_SIZE <= src_end) by (nonlinear_arith)
            requires va < src_end, va % 4096 == 0, src_end % 4096 == 0;
        lemma_replaced_entry_changed(m_a, m_b, self.cur_node().raw, idx, Child::Frame(page, p1), pte);
        self.lemma_wf_leaf_change(m_a, m_b, fm_b, k, idx);
        dc.lemma_wf_leaf_change(m_a, m_b, fm_b, k, idx);
        assert(dc.guards@[dc.guard_level - 1] is Some);
        lemma_same_except_to2(m_a, m_b, k);
        lemma_subtree_tracked_kept(m_a, m_b, fm_b, self.cur_node().raw, idx, self.cur_node().raw, d0.guard_node().raw, d0.guard_level as int);
        self.lemma_path_prefix(m_a, fm_b, 1);
        lemma_range_number_step(va, 1);
        // The page of the source now has the new property; the destination
        // is still free there.
        self.lemma_view_in_slot(m_b, 1, va);
        assert(self.view(m_b, va) == (Child::Frame(page, p1), 1int));
        assert(s0.view(m0, va) == (Child::Frame(page, prop), 1int));
        assert(d0.view(m_a, va).0 is Empty);
        dc.lemma_barrier_in_guard(va);
        dc.lemma_view_unmapped_kept(m_a, m_b, fm_b, k, idx, va);
        // Every other address keeps its view.
        assert forall|u: Vaddr| #![trigger s0.view(m_b, u)] #![trigger d0.view(m_b, u)] s0.va <= u < src_end && u / 4096 != va / 4096 implies {
            &&& s0.view(m_b, u) == s0.view(m_a, u)
            &&& d0.view(m_b, u) == d0.view(m_a, u)
        } by {
            self.lemma_barrier_in_guard(u);
            dc.lemma_barrier_in_guard(u);
            lemma_same_prefix_above(u, va, s0.guard_level + 1, NR_LEVELS + 1);
            lemma_range_number_same(u, va, 1);
            self.lemma_view_entry_changed(m_a, m_b, fm_b, k, idx, u);
            lemma_same_prefix_above(u, va, d0.guard_level + 1, NR_LEVELS + 1);
            dc.lemma_view_entry_changed(m_a, m_b, fm_b, k, idx, u);
        }
        assert forall|u: Vaddr| va + PAGE_SIZE <= u < src_end implies {
            let leaf = #[trigger] s0.view(m0, u).0;
            &&& !(leaf is Untracked)
            &&& leaf is Frame ==> d0.view(m_b, u).0 is Empty
            &&& leaf matches Child::Frame(f, _) ==> fm_b.ref_count_of(f.index()) + pages_left(va + PAGE_SIZE, src_end as int) < REF_COUNT_MAX
            &&& !(leaf is Empty) ==> s0.view(m_b, u) == s0.view(m0, u)
        } by {
            assert(u / 4096 != va / 4096);
            assert(s0.view(m_b, u) == s0.view(m_a, u));
            assert(d0.view(m_b, u) == d0.view(m_a, u));
            let leaf = s0.view(m0, u).0;
            if let Child::Frame(f, _) = leaf {
                assert(s0.view(m_a, u) == s0.view(m0, u));
                assert(self.guards@[self.guard_level - 1] is Some);
                lemma_lookup_frame_valid(m_a, fm_a, self.guard_node().raw, self.guard_level as int, u);
                f.lemma_slot_ok_bounds(fm_a);
                page.lemma_slot_ok_bounds(fm_a);
                assert(fm_b.ref_count_of(f.index()) <= fm_a.ref_count_of(f.index()) + 1);
                assert(fm_a.ref_count_of(f.index()) + pages_left(va as int, src_end as int) < REF_COUNT_MAX);
                assert(pages_left(va + PAGE_SIZE, src_end as int) == pages_left(va as int, src_end as int) - 1) by {
                    vstd::arithmetic::div_mod::lemma_fundamental_div_mod((src_end - va) as int, 4096);
                    vstd::arithmetic::div_mod::lemma_fundamental_div_mod((src_end - va - 4096) as int, 4096);
                }
            }
        }
        assert forall|u: Vaddr| s0.va <= u < src_end && !(#[trigger] s0.view(m0, u).0 is Frame) implies {
            &&& translate(s0.view(m_b, u), u) == translate(s0.view(m0, u), u)
            &&& translate(d0.view(m_b, u), u) == translate(d0.view(m0, u), u)
        } by {
            if u / 4096 == va / 4096 {
                lemma_same_page_lookup(m0, s0.guard_node().raw, s0.guard_level as int, u, va);
            } else {
                assert(s0.view(m_b, u) == s0.view(m_a, u));
                assert(d0.view(m_b, u) == d0.view(m_a, u));
            }
        }
        assert forall|u: Vaddr| s0.va <= u < src_end && u < va && (#[trigger] s0.view(m0, u).0 is Frame) implies {
            &&& frame_reprotected(op, s0.view(m0, u), s0.view(m_b, u))
            &&& frame_reprotected(op, s0.view(m0, u), d0.view(m_b, u))
        } by {
            assert(u / 4096 != va / 4096) by {
                vstd::arithmetic::div_mod::lemma_div_is_ordered(u as int, va as int, 4096);
                vstd::arithmetic::div_mod::lemma_fundamental_div_mod(va as int, 4096);
                vstd::arithmetic::div_mod::lemma_fundamental_div_mod(u as int, 4096);
            }
            assert(s0.view(m_b, u) == s0.view(m_a, u));
            assert(d0.view(m_b, u) == d0.view(m_a, u));
        }
        // Outside the copied range nothing changes.
        self.lemma_barrier_in_guard(va);
        assert forall|u: Vaddr| s0.in_guard_range(u) && !(s0.va <= u < src_end)
            implies #[trigger] translate(s0.view(m_b, u), u) == translate(s0.view(m0, u), u) by {
            lemma_page_outside(u as int, s0.va as int, src_end as int, va as int);
            lemma_same_prefix_above(u, va, s0.guard_level + 1, NR_LEVELS + 1);
            lemma_range_number_same(u, va, 1);
            self.lemma_view_entry_changed(m_a, m_b, fm_b, k, idx, u);
        }
        assert forall|u: Vaddr| d0.in_guard_range(u) && !(s0.va <= u < src_end)
            implies #[trigger] translate(d0.view(m_b, u), u) == translate(d0.view(m0, u), u) by {
            lemma_page_outside(u as int, s0.va as int, src_end as int, va as int);
            lemma_same_prefix_above(u, va, d0.guard_level + 1, NR_LEVELS + 1);
            lemma_range_number_same(u, va, 1);
            assert(dc.in_guard_range(u));
            dc.lemma_view_entry_changed(m_a, m_b, fm_b, k, idx, u);
            assert(d0.view(m_b, u) == d0.view(m_a, u));
            assert(translate(d0.view(m_a, u), u) == translate(d0.view(m0, u), u));
        }
    }
}

/// An address outside the page-aligned range `[lo, hi)` lies in another base
/// page than an address `va` of the range.
pub proof fn lemma_page_outside(u: int, lo: int, hi: int, va: int)
    requires
        0 <= u,
        u < lo || hi <= u,
        lo <= va < hi,
        lo % 4096 == 0,
        hi % 4096 == 0,
    ensures
        u / 4096 != va / 4096,
{
    vstd::arithmetic::div_mod::lemma_fundamental_div_mod(u, 4096);
    vstd::arithmetic::div_mod::lemma_fundamental_div_mod(va, 4096);
    vstd::arithmetic::div_mod::lemma_fundamental_div_mod(lo, 4096);
    vstd::arithmetic::div_mod::lemma_fundamental_div_mod(hi, 4096);
}


impl<M: PageTableMode, E: PageTableEntryTrait> CursorMut<M, E> {
    /// Once the source page is done, the destination cursor at its address
    /// can map a base page there.
    pub proof fn lemma_copy_map_ready<F: Fn(PageProperty) -> PageProperty>(
        &self,
        dc: Cursor<M, E>,
        sc: Cursor<M, E>,
        mem: &PageTableMem<E>,
        fm: &FrameManager,
        m0: &PageTableMem<E>,
        op: &F,
        s0: Cursor<M, E>,
        d0: Cursor<M, E>,
        src_end: Vaddr,
    )
        requires
            copy_mid(dc, sc, mem, fm, m0, op, s0, d0, src_end),
            self.0.wf(mem),
            self.0.same_frame(&d0),
            self.0.va == sc.va,
        ensures
            self.map_ok(mem),
            map_allocs(self.cur_leaf(mem)) <= 3,
            fm.can_alloc(map_allocs(self.cur_leaf(mem))),
            self.0.va + PAGE_SIZE <= self.0.barrier_va.end,
    {
        let c = self.0;
        let l = c.level as int;
        c.lemma_view_at_cur(mem, l);
        assert(c.guards@[l - 1] is Some);
        lemma_lookup_not_node(mem, fm, c.cur_node().raw, l, c.va);
        let leaf = self.cur_leaf(mem);
        assert(leaf == d0.view(mem, sc.va));
        if leaf.1 == 1 {
            c.lemma_path_tracked(mem, fm, l);
            lemma_tracked_leaf_node(mem, fm, c.cur_node().raw, l, c.va);
        }
        assert(frame_pages(s0, m0, sc.va as int, src_end as int) >= 1);
        lemma_can_alloc_fewer(fm, (3 * frame_pages(s0, m0, sc.va as int, src_end as int)) as nat, map_allocs(leaf));
    }
}

impl<M: PageTableMode, E: PageTableEntryTrait> Cursor<M, E> {
    /// Mapping the done source page in the destination and moving the
    /// source on keeps copying on track.
    pub proof fn lemma_copy_map<F: Fn(PageProperty) -> PageProperty>(
        &self,
        c1: &Self,
        dc: Self,
        d1: Self,
        d2: Self,
        m_b: &PageTableMem<E>,
        m_c: &PageTableMem<E>,
        fm_b: &FrameManager,
        fm_c: &FrameManager,
        m0: &PageTableMem<E>,
        op: &F,
        s0: Self,
        d0: Self,
        src_end: Vaddr,
        page: Frame<Unknown>,
        prop: PageProperty,
        new_prop: PageProperty,
    )
        requires
            copy_mid(dc, *self, m_b, fm_b, m0, op, s0, d0, src_end),
            s0.view(m0, self.va) == (Child::Frame(page, prop), 1int),
            op.ensures((prop,), new_prop),
            d1.wf(m_b),
            d1.same_frame(&d0),
            d1.va == self.va,
            d2.wf(m_c),
            d2.same_frame(&d1),
            fm_c.wf(),
            m_c.wf(fm_c),
            fm_c.nr_frames() == fm_b.nr_frames(),
            d2.view(m_c, self.va) == (Child::Frame(page, new_prop), 1int),
            forall|u: Vaddr| d1.in_guard_range(u) && !(self.va <= u < self.va + PAGE_SIZE)
                ==> #[trigger] translate(d2.view(m_c, u), u) == translate(d1.view(m_b, u), u),
            only_fills(m_b, m_c),
            forall|pa: Paddr, l: int, u: Vaddr| 1 <= l <= NR_LEVELS && m_b.is_node(pa, l)
                && m_b.node(pa).prefix@ == range_number(u as int, l)
                && range_number(u as int, 0) != range_number(self.va as int, 0)
                ==> #[trigger] translate(m_c.lookup(pa, l, u), u) == translate(m_b.lookup(pa, l, u), u),
            subtree_tracked(m_c, d0.guard_node().raw, d0.guard_level as int),
            forall|n: nat| fm_b.can_alloc(n + 3) ==> #[trigger] fm_c.can_alloc(n),
            forall|i: int| 0 <= i < fm_b.nr_frames() && #[trigger] fm_b.in_use(i) ==> fm_c.ref_count_of(i) == fm_b.ref_count_of(i),
            c1.wf(m_c),
            c1.same_frame(self),
            c1.va == self.va + PAGE_SIZE,
        ensures
            copy_inv(d2, *c1, m_c, fm_c, m0, op, s0, d0, src_end),
    {
        let va = self.va;
        let sg = self.guard_node().raw;
        let sgl = self.guard_level as int;
        assert(self.guards@[sgl - 1] is Some);
        assert(d1.guards@[d1.guard_level - 1] is Some);
        assert(d2.guards@[d2.guard_level - 1] is Some);
        lemma_page_size_values();
        assert(pages_left(c1.va as int, src_end as int) == pages_left(va as int, src_end as int) - 1) by {
            vstd::arithmetic::div_mod::lemma_fundamental_div_mod((src_end - va) as int, 4096);
            vstd::arithmetic::div_mod::lemma_fundamental_div_mod((src_end - va - 4096) as int, 4096);
        }
        assert(frame_pages(s0, m0, va as int, src_end as int) == 1 + frame_pages(s0, m0, c1.va as int, src_end as int));
        let n = (3 * frame_pages(s0, m0, c1.va as int, src_end as int)) as nat;
        assert(fm_b.can_alloc(n + 3));
        assert(fm_c.can_alloc(n));
        // Ahead: the source keeps its mappings and the destination stays free
        // where the source maps a frame.
        assert forall|u: Vaddr| c1.va <= u < src_end implies {
            let leaf = #[trigger] s0.view(m0, u).0;
            &&& !(leaf is Untracked)
            &&& leaf is Frame ==> d0.view(m_c, u).0 is Empty
            &&& leaf matches Child::Frame(f, _) ==> fm_c.ref_count_of(f.index()) + pages_left(c1.va as int, src_end as int) < REF_COUNT_MAX
            &&& !(leaf is Empty) ==> s0.view(m_c, u) == s0.view(m0, u)
        } by {
            let leaf = s0.view(m0, u).0;
            if !(leaf is Empty) {
                assert(s0.view(m_b, u) == s0.view(m0, u));
                lemma_only_fills_lookup(m_b, m_c, fm_b, sg, sgl, u);
            }
            if leaf is Frame {
                d1.lemma_barrier_in_guard(u);
                assert(translate(d2.view(m_c, u), u) == translate(d1.view(m_b, u), u));
                lemma_lookup_not_node(m_c, fm_c, d2.guard_node().raw, d2.guard_level as int, u);
            }
            if let Child::Frame(f, _) = leaf {
                lemma_lookup_frame_valid(m_b, fm_b, sg, sgl, u);
                f.lemma_slot_ok_bounds(fm_b);
                assert(fm_b.in_use(f.index()));
                assert(fm_c.ref_count_of(f.index()) == fm_b.ref_count_of(f.index()));
                assert(fm_b.ref_count_of(f.index()) + pages_left(va + PAGE_SIZE, src_end as int) < REF_COUNT_MAX);
            }
        }
        // Every address where the source mapped no frame translates as before
        // in both.
        assert forall|u: Vaddr| s0.va <= u < src_end && !(#[trigger] s0.view(m0, u).0 is Frame) implies {
            &&& translate(s0.view(m_c, u), u) == translate(s0.view(m0, u), u)
            &&& translate(d0.view(m_c, u), u) == translate(d0.view(m0, u), u)
        } by {
            if u / 4096 == va / 4096 {
                lemma_same_page_lookup(m0, sg, sgl, u, va);
            }
            assert(u / 4096 != va / 4096);
            self.lemma_barrier_in_guard(u);
            d1.lemma_barrier_in_guard(u);
            lemma_same_prefix_above(u, va, sgl + 1, NR_LEVELS + 1);
            lemma_range_number_same(u, va, 1);
            lemma_same_prefix_above(u, self.barrier_va.start, sgl + 1, NR_LEVELS + 1);
            lemma_range_number_same(u, self.barrier_va.start, sgl + 1);
            assert(translate(m_c.lookup(sg, sgl, u), u) == translate(m_b.lookup(sg, sgl, u), u));
            assert(translate(d2.view(m_c, u), u) == translate(d1.view(m_b, u), u));
        }
        // Behind: the frames are mapped in both with their new properties.
        assert forall|u: Vaddr| s0.va <= u < src_end && u < c1.va && (#[trigger] s0.view(m0, u).0 is Frame) implies {
            &&& frame_reprotected(op, s0.view(m0, u), s0.view(m_c, u))
            &&& frame_reprotected(op, s0.view(m0, u), d0.view(m_c, u))
        } by {
            if u < va {
                assert(frame_reprotected(op, s0.view(m0, u), s0.view(m_b, u)));
                assert(frame_reprotected(op, s0.view(m0, u), d0.view(m_b, u)));
                lemma_only_fills_lookup(m_b, m_c, fm_b, sg, sgl, u);
                lemma_only_fills_lookup(m_b, m_c, fm_b, d1.guard_node().raw, d1.guard_level as int, u);
            } else {
                assert(u / 4096 == va / 4096) by {
                    lemma_in_slot(va, u, va as int, 4096);
                }
                lemma_same_page_lookup(m0, sg, sgl, u, va);
                lemma_same_page_lookup(m_b, sg, sgl, u, va);
                lemma_same_page_lookup(m_c, sg, sgl, u, va);
                lemma_same_page_lookup(m_c, d2.guard_node().raw, d2.guard_level as int, u, va);
                lemma_only_fills_lookup(m_b, m_c, fm_b, sg, sgl, va);
            }
        }
        // Outside the copied range nothing changes.
        self.lemma_barrier_in_guard(va);
        assert forall|u: Vaddr| s0.in_guard_range(u) && !(s0.va <= u < src_end)
            implies #[trigger] translate(s0.view(m_c, u), u) == translate(s0.view(m0, u), u) by {
            lemma_page_outside(u as int, s0.va as int, src_end as int, va as int);
            lemma_same_prefix_above(u, va, sgl + 1, NR_LEVELS + 1);
            lemma_range_number_same(u, va, 1);
            lemma_same_prefix_above(u, self.barrier_va.start, sgl + 1, NR_LEVELS + 1);
            lemma_range_number_same(u, self.barrier_va.start, sgl + 1);
            assert(translate(m_c.lookup(sg, sgl, u), u) == translate(m_b.lookup(sg, sgl, u), u));
        }
        assert forall|u: Vaddr| d0.in_guard_range(u) && !(s0.va <= u < src_end)
            implies #[trigger] translate(d0.view(m_c, u), u) == translate(d0.view(m0, u), u) by {
            lemma_page_outside(u as int, s0.va as int, src_end as int, va as int);
            assert(d1.in_guard_range(u));
            assert(translate(d2.view(m_c, u), u) == translate(d1.view(m_b, u), u));
            assert(d1.view(m_b, u) == d0.view(m_b, u));
            assert(d2.view(m_c, u) == d0.view(m_c, u));
            assert(translate(d0.view(m_b, u), u) == translate(d0.view(m0, u), u));
        }
    }
}


impl<M: PageTableMode, E: PageTableEntryTrait> CursorMut<M, E> {
    /// Copies the mappings of the `len` bytes from the current address of
    /// `src` into this cursor, at the same addresses. Each tracked page
    /// mapped there keeps its frame in both page tables: it gets its
    /// property changed by `op` in `src`, and is mapped here with `op`
    /// applied to its old property. Only the mappings are copied, not the
    /// frames, whose reference counts grow by one per copy. Copying goes on
    /// while neither cursor has covered `len` bytes; this cursor lands just
    /// past each page it maps, so when it starts below `src` it may stop
    /// before the end of the source range, and the pages left keep their
    /// mappings. Both cursors then end `len` bytes from where they started,
    /// and no mapping outside the source range changes in either table.
    ///
    /// A length that is not page aligned, a range past either cursor's
    /// range, an untracked mapping in the copied range, a page mapped here
    /// where `src` maps one, and running out of memory for nodes or of
    /// reference counts panic (excluded here).
    pub fn copy_from<F: Fn(PageProperty) -> PageProperty>(
        &mut self,
        src: &mut Self,
        mem: &mut PageTableMem<E>,
        fm: &mut FrameManager,
        len: u64,
        op: &F,
    )
        requires
            old(self).0.wf(old(mem)),
            old(src).0.wf(old(mem)),
            old(fm).wf(),
            old(mem).wf(old(fm)),
            len % PAGE_SIZE == 0,
            old(self).0.va + len <= old(self).0.barrier_va.end,
            old(src).0.va + len <= old(src).0.barrier_va.end,
            old(src).0.barrier_va.end + ps(old(src).0.guard_level as int) <= u64::MAX + 1,
            old(self).0.barrier_va.start <= old(src).0.va,
            old(src).0.va + len <= old(self).0.barrier_va.end,
            subtree_tracked(old(mem), old(self).0.guard_node().raw, old(self).0.guard_level as int),
            old(fm).can_alloc((3 * frame_pages(old(src).0, old(mem), old(src).0.va as int, old(src).0.va + len)) as nat),
            forall|p: PageProperty| #[trigger] op.requires((p,)),
            forall|u: Vaddr| old(src).0.va <= u < old(src).0.va + len ==> {
                let leaf = #[trigger] old(src).0.view(old(mem), u).0;
                &&& !(leaf is Untracked)
                &&& leaf is Frame ==> old(self).0.view(old(mem), u).0 is Empty
                &&& leaf matches Child::Frame(f, _) ==> old(fm).ref_count_of(f.index()) + len / PAGE_SIZE < REF_COUNT_MAX
            },
        ensures
            final(self).0.wf(final(mem)),
            final(src).0.wf(final(mem)),
            final(self).0.same_frame(&old(self).0),
            final(src).0.same_frame(&old(src).0),
            final(fm).wf(),
            final(mem).wf(final(fm)),
            final(fm).nr_frames() == old(fm).nr_frames(),
            final(src).0.va == old(src).0.va + len,
            final(self).0.va == old(self).0.va + len,
            forall|u: Vaddr| old(src).0.va <= u < old(src).0.va + len && !(#[trigger] old(src).0.view(old(mem), u).0 is Frame) ==> {
                &&& translate(final(src).0.view(final(mem), u), u) == translate(old(src).0.view(old(mem), u), u)
                &&& translate(final(self).0.view(final(mem), u), u) == translate(old(self).0.view(old(mem), u), u)
            },
            forall|u: Vaddr| old(src).0.va <= u < old(src).0.va + len
                && (#[trigger] old(src).0.view(old(mem), u).0 is Frame) ==> if copy_reaches(old(src).0, old(mem), u, old(self).0.va + len) {
                &&& frame_reprotected(op, old(src).0.view(old(mem), u), final(src).0.view(final(mem), u))
                &&& frame_reprotected(op, old(src).0.view(old(mem), u), final(self).0.view(final(mem), u))
            } else {
                &&& translate(final(src).0.view(final(mem), u), u) == translate(old(src).0.view(old(mem), u), u)
                &&& translate(final(self).0.view(final(mem), u), u) == translate(old(self).0.view(old(mem), u), u)
            },
            old(self).0.va == old(src).0.va ==> forall|u: Vaddr| old(src).0.va <= u < old(src).0.va + len
                && (#[trigger] old(src).0.view(old(mem), u).0 is Frame) ==> {
                &&& frame_reprotected(op, old(src).0.view(old(mem), u), final(src).0.view(final(mem), u))
                &&& frame_reprotected(op, old(src).0.view(old(mem), u), final(self).0.view(final(mem), u))
            },
            forall|u: Vaddr| old(src).0.in_guard_range(u) && !(old(src).0.va <= u < old(src).0.va + len)
                ==> #[trigger] translate(final(src).0.view(final(mem), u), u) == translate(old(src).0.view(old(mem), u), u),
            forall|u: Vaddr| old(self).0.in_guard_range(u) && !(old(src).0.va <= u < old(src).0.va + len)
                ==> #[trigger] translate(final(self).0.view(final(mem), u), u) == translate(old(self).0.view(old(mem), u), u),
            forall|i: int| 0 <= i < old(fm).nr_frames() && #[trigger] old(fm).in_use(i)
                ==> final(fm).ref_count_of(i) == old(fm).ref_count_of(i)
                    + copies_of(old(src).0, old(mem), i, old(src).0.va as int, old(src).0.va + len, old(self).0.va + len),
    {
        let this_end = self.0.va + len;
        let src_end = src.0.va + len;
        let ghost s0 = old(src).0;
        let ghost d0 = old(self).0;
        proof {
            mem.lemma_wf_shape(fm);
            lemma_page_size_values();
            assert(src_end % 4096 == 0) by (nonlinear_arith)
                requires s0.va % 4096 == 0, len % 4096 == 0, src_end == s0.va + len;
            assert(pages_left(s0.va as int, src_end as int) == len / 4096);
            assert(copy_inv(self.0, src.0, mem, fm, old(mem), op, s0, d0, src_end));
        }
        while self.0.va < this_end && src.0.va < src_end
            invariant
                copy_inv(self.0, src.0, mem, fm, old(mem), op, s0, d0, src_end),
                mem.shape_ok(),
                fm.nr_frames() == old(fm).nr_frames(),
                s0 == old(src).0,
                d0 == old(self).0,
                src_end == s0.va + len,
                this_end == d0.va + len,
                forall|p: PageProperty| #[trigger] op.requires((p,)),
                d0.va == s0.va ==> self.0.va <= src.0.va,
                copy_tally(src.0, self.0, old(mem), old(fm), fm, s0, d0, src_end as int, this_end as int),
            decreases (if src.0.va < src_end { src_end - src.0.va } else { 0 }), src.0.level,
        {
            proof {
                lemma_page_size_values();
            }
            let src_va = src.0.va;
            let src_level = src.0.level;
            let mut src_entry = src.0.cur_entry(mem);
            let node = src_entry.node;
            let ghost c0 = src.0;
            let ghost dtop = self.0;
            proof {
                assert(src.0.guards@[src_level - 1] is Some);
                assert(mem.node_wf(fm, frame_of(node.page.raw)));
                let rec = mem.node(node.page.raw);
                assert(mem.child_ok(fm, rec.table@[src_entry.idx as int], rec.meta.level, rec.meta.is_tracked));
                assert(super::node::entry_matches(mem.ptes@[frame_of(node.page.raw)]@[src_entry.idx as int], rec.table@[src_entry.idx as int], rec.meta.level));
                lemma_page_size_step(src_level as int);
                assert(src.0.next_slot_va() < src_end + ps(s0.guard_level as int)) by {
                    vstd::arithmetic::div_mod::lemma_fundamental_div_mod(src_va as int, ps(src_level as int));
                    lemma_page_size_mono(src_level as int, s0.guard_level as int);
                }
            }
            match node.page.get_child(mem, src_entry.idx) {
                Child::PageTable(pt) => {
                    let pt = *pt;
                    let pt = pt.lock();
                    proof {
                        assert(mem.node_wf(fm, frame_of(pt.page.raw)));
                    }
                    if pt.nr_children(mem) != 0 {
                        src.0.push_level(mem, pt);
                    } else {
                        src.0.move_forward(mem);
                        proof {
                            c0.lemma_copy_skip(&src.0, self.0, mem, fm, old(mem), op, s0, d0, src_end);
                            lemma_copy_skip_tally(c0, src.0, self.0, old(mem), old(fm), fm, s0, d0, src_end as int, this_end as int);
                        }
                    }
                },
                Child::Empty => {
                    src.0.move_forward(mem);
                    proof {
                        c0.lemma_copy_skip(&src.0, self.0, mem, fm, old(mem), op, s0, d0, src_end);
                        lemma_copy_skip_tally(c0, src.0, self.0, old(mem), old(fm), fm, s0, d0, src_end as int, this_end as int);
                    }
                },
                Child::Untracked(_, _, _) => {
                    proof {
                        c0.lemma_copy_frame_found(self.0, mem, fm, old(mem), op, s0, d0, src_end);
                        assert(false);
                    }
                },
                Child::Frame(page, prop) => {
                    let prop = *prop;
                    let ghost fm_a = *fm;
                    let ghost m_a = *mem;
                    proof {
                        c0.lemma_copy_frame_found(self.0, mem, fm, old(mem), op, s0, d0, src_end);
                        page.lemma_slot_ok_bounds(fm);
                        assert(pages_left(src_va as int, src_end as int) >= 1) by {
                            vstd::arithmetic::div_mod::lemma_fundamental_div_mod((src_end - src_va) as int, 4096);
                        }
                        assert(s0.view(old(mem), src_va).0 is Frame);
                    }
                    let page = page.clone(fm);
                    proof {
                        lemma_inc_keeps_in_use(&fm_a, fm, page.index());
                        mem.lemma_wf_fm(&fm_a, fm);
                        page.lemma_slot_ok_same_frames(&fm_a, fm);
                    }
                    let ghost fm_b = *fm;
                    let ghost pte0 = src_entry.pte;
                    src_entry.protect(mem, fm, op);
                    proof {
                        c0.lemma_copy_protect(dtop, &m_a, mem, &fm_a, fm, old(mem), op, s0, d0, src_end, page, prop, src_entry.pte.spec_prop(), src_entry.pte);
                        mem.lemma_wf_shape(fm);
                    }
                    let new_prop = op(prop);
                    let _ = self.jump(mem, src_va);
                    let ghost m_b = *mem;
                    let ghost d1 = self.0;
                    proof {
                        self.lemma_copy_map_ready(dtop, c0, mem, fm, old(mem), op, s0, d0, src_end);
                    }
                    let original = self.map(mem, fm, page, new_prop);
                    proof {
                        assert(original is None);
                        mem.lemma_wf_shape(fm);
                        c0.lemma_wf_only_fills(&m_b, mem, &fm_b);
                    }
                    src.0.move_forward(mem);
                    proof {
                        vstd::arithmetic::div_mod::lemma_mod_bound(src_va as int, ps(src_level as int));
                        lemma_ps_multiple_of_base(src_level as int);
                        assert forall|n: nat| fm_b.can_alloc(n + 3) implies #[trigger] fm.can_alloc(n) by {
                            lemma_can_alloc_fewer(&fm_b, n + 3, n + map_allocs(CursorMut(d1).cur_leaf(&m_b)));
                        }
                        c0.lemma_copy_map(&src.0, dtop, d1, self.0, &m_b, mem, &fm_b, fm, old(mem), op, s0, d0, src_end, page, prop, new_prop);
                        lemma_copy_frame_tally(c0, src.0, dtop, self.0, old(mem), old(fm), &fm_a, &fm_b, fm, s0, d0, src_end as int, this_end as int, page);
                    }
                },
            }
        }
        let ghost sl = src.0;
        let ghost dl = self.0;
        proof {
            if d0.va == s0.va {
                assert(src.0.va >= src_end);
            }
            assert(d0.va % 4096 == 0 && this_end % 4096 == 0) by (nonlinear_arith)
                requires d0.va % 4096 == 0, len % 4096 == 0, this_end == d0.va + len;
        }
        proof {
            lemma_copy_tally_done(sl, dl, old(mem), old(fm), fm, s0, d0, src_end as int, this_end as int);
        }
        src.0.relocate(mem, src_end);
        self.0.relocate(mem, this_end);
        proof {
            assert forall|u: Vaddr| old(src).0.va <= u < old(src).0.va + len && !(#[trigger] old(src).0.view(old(mem), u).0 is Frame) implies {
                &&& translate(src.0.view(mem, u), u) == translate(old(src).0.view(old(mem), u), u)
                &&& translate(self.0.view(mem, u), u) == translate(old(self).0.view(old(mem), u), u)
            } by {
                assert(translate(s0.view(mem, u), u) == translate(s0.view(old(mem), u), u));
            }
            assert forall|u: Vaddr| d0.va == s0.va && old(src).0.va <= u < old(src).0.va + len
                && (#[trigger] old(src).0.view(old(mem), u).0 is Frame) implies {
                &&& frame_reprotected(op, old(src).0.view(old(mem), u), src.0.view(mem, u))
                &&& frame_reprotected(op, old(src).0.view(old(mem), u), self.0.view(mem, u))
            } by {
                assert(frame_reprotected(op, s0.view(old(mem), u), s0.view(mem, u)));
            }
            assert forall|u: Vaddr| old(src).0.va <= u < old(src).0.va + len
                && (#[trigger] old(src).0.view(old(mem), u).0 is Frame) implies if copy_reaches(old(src).0, old(mem), u, old(self).0.va + len) {
                &&& frame_reprotected(op, old(src).0.view(old(mem), u), src.0.view(mem, u))
                &&& frame_reprotected(op, old(src).0.view(old(mem), u), self.0.view(mem, u))
            } else {
                &&& translate(src.0.view(mem, u), u) == translate(old(src).0.view(old(mem), u), u)
                &&& translate(self.0.view(mem, u), u) == translate(old(self).0.view(old(mem), u), u)
            } by {
                if u < sl.va {
                    assert(frame_reprotected(op, s0.view(old(mem), u), s0.view(mem, u)));
                } else {
                    assert(s0.view(mem, u) == s0.view(old(mem), u));
                    assert(d0.view(mem, u).0 is Empty);
                    assert(d0.view(old(mem), u).0 is Empty);
                }
            }
            assert forall|u: Vaddr| old(src).0.in_guard_range(u) && !(old(src).0.va <= u < old(src).0.va + len)
                implies #[trigger] translate(src.0.view(mem, u), u) == translate(old(src).0.view(old(mem), u), u) by {
                assert(translate(s0.view(mem, u), u) == translate(s0.view(old(mem), u), u));
            }
            assert forall|u: Vaddr| old(self).0.in_guard_range(u) && !(old(src).0.va <= u < old(src).0.va + len)
                implies #[trigger] translate(self.0.view(mem, u), u) == translate(old(self).0.view(old(mem), u), u) by {
                assert(translate(d0.view(mem, u), u) == translate(d0.view(old(mem), u), u));
            }
        }
    }
}


impl<M: PageTableMode, E: PageTableEntryTrait> Cursor<M, E> {
    /// Moving past the empty slot at the cursor keeps every address from
    /// `start` up to the new position unmapped in `m0`, the memory whose
    /// translations `mem` keeps.
    pub proof fn lemma_prefix_unmapped_after_skip(
        &self, c0: Self, m0: &PageTableMem<E>, mem: &PageTableMem<E>, fm: &FrameManager, start: Vaddr, new_va: int,
    )
        requires
            self.wf(mem),
            mem.wf(fm),
            self.same_frame(&c0),
            self.va < self.barrier_va.end,
            new_va <= self.next_slot_va(),
            ({
                let c = mem.node(self.cur_node().raw).table@[pte_index_spec(self.va, self.level as int) as int];
                ||| c is Empty
                ||| (c matches Child::PageTable(raw) && mem.node(raw.raw).meta.nr_children == 0)
            }),
            forall|u: Vaddr| start <= u < self.va ==> #[trigger] translate(c0.view(m0, u), u) is None,
            forall|u: Vaddr| c0.in_guard_range(u) ==> #[trigger] translate(c0.view(mem, u), u) == translate(c0.view(m0, u), u),
        ensures
            forall|u: Vaddr| start <= u < new_va ==> #[trigger] translate(c0.view(m0, u), u) is None,
    {
        assert forall|u: Vaddr| start <= u < new_va implies #[trigger] translate(c0.view(m0, u), u) is None by {
            if u >= self.va {
                self.lemma_skipped_unmapped(mem, fm, u);
                assert(c0.in_guard_range(u));
                assert(translate(c0.view(mem, u), u) == translate(c0.view(m0, u), u));
            }
        }
    }

    /// The addresses of a slot that holds nothing, or a node without
    /// present children, are in the guard range and unmapped.
    pub proof fn lemma_skipped_unmapped(&self, mem: &PageTableMem<E>, fm: &FrameManager, u: Vaddr)
        requires
            self.wf(mem),
            mem.wf(fm),
            self.va < self.barrier_va.end,
            self.va <= u < self.next_slot_va(),
            ({
                let c = mem.node(self.cur_node().raw).table@[pte_index_spec(self.va, self.level as int) as int];
                ||| c is Empty
                ||| (c matches Child::PageTable(raw) && mem.node(raw.raw).meta.nr_children == 0)
            }),
        ensures
            self.view(mem, u).0 is Empty,
            self.in_guard_range(u),
    {
        let l = self.level as int;
        let p = ps(l);
        lemma_page_size_step(l);
        let base = self.va - self.va as int % p;
        vstd::arithmetic::div_mod::lemma_mod_bound(self.va as int, p);
        lemma_in_slot(self.va, u, base, p);
        self.lemma_slot_unmapped(mem, fm, u);
        lemma_same_prefix_above(u, self.va, l, self.guard_level + 1);
    }
}

} // verus!
