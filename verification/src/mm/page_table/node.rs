//! Page table nodes and their entries.
//!
//! A page table node is a physical frame that holds 512 page table entries
//! (PTEs); each entry points to a child node or maps a page. Besides the
//! PTEs that the hardware reads, the kernel keeps for each node its
//! metadata and an owning table of children ([`Child`]): handles of child
//! nodes, of mapped frames, or the description of untracked mappings.
//!
//! [`PageTableMem`] holds both: the PTE contents of every physical frame,
//! indexed by frame number, and the records of the frames in use as page
//! table nodes. Its well-formedness ties each node's PTEs to its children.
//! A node is reached from its physical address alone, as the hardware does.

use vstd::prelude::*;

use super::{pte_index_spec, PageTableEntryTrait};
use crate::mm::{
    frame::{allocator::{FrameAllocOptions, PAGE_SIZE_BYTES}, Frame, FrameManager, Unknown, REF_COUNT_MAX, REF_COUNT_UNUSED},
    page_prop::PageProperty, page_size_spec, Paddr, PagingLevel, NR_LEVELS, PAGE_SIZE,
};

verus! {

/// Whether the physical pages that a page table node maps are tracked by
/// frame metadata.
#[derive(Clone, Copy, Debug, PartialEq, Eq, Structural)]
pub enum MapTrackingStatus {
    /// The node maps no page directly; it only holds child nodes.
    NotApplicable,
    /// The mapped pages are not tracked: dropping the mapping does not
    /// release them (device memory, firmware regions, linear mappings).
    Untracked,
    /// The mapped pages are tracked frames whose handles the node owns.
    TrackedPages,
}

/// The metadata of a page table node.
#[derive(Clone, Copy, Debug)]
pub struct PageTablePageMeta {
    /// The number of present entries.
    pub nr_children: u16,
    /// The level of the node; a node is never referenced at another level.
    pub level: PagingLevel,
    /// The lock bit of the node.
    pub lock: u8,
    /// Whether the pages mapped by the node are tracked.
    pub is_tracked: MapTrackingStatus,
    /// The physical address of the node.
    pub paddr: Paddr,
}

impl PageTablePageMeta {
    /// Creates the metadata of an empty, unlocked node.
    pub fn new_locked(level: PagingLevel, is_tracked: MapTrackingStatus, paddr: Paddr) -> (r: Self)
        ensures
            r.nr_children == 0,
            r.level == level,
            r.lock == 0,
            r.is_tracked == is_tracked,
            r.paddr == paddr,
    {
        PageTablePageMeta { nr_children: 0, level, lock: 0, is_tracked, paddr }
    }
}

/// The raw handle of a page table node: its physical address and level.
///
/// Creating a handle with [`RawPageTableNode::clone_shallow`] takes a
/// reference of the node's frame and [`RawPageTableNode::drop`] gives it
/// back.
#[derive(Clone, Copy, Debug, PartialEq, Eq, Structural)]
pub struct RawPageTableNode {
    pub raw: Paddr,
    pub level: PagingLevel,
}

/// A child of a page table node.
///
/// A child that is a node or a tracked frame holds a reference of it.
#[derive(Debug)]
pub enum Child {
    /// A child page table node.
    PageTable(RawPageTableNode),
    /// A mapped tracked frame and its property.
    Frame(Frame<Unknown>, PageProperty),
    /// A mapped page that no handle tracks: its address, level and property.
    Untracked(Paddr, PagingLevel, PageProperty),
    /// Nothing.
    Empty,
}

/// The kernel's record of a page table node: its metadata, its children,
/// and the number of the address range that it covers.
pub struct NodeRecord {
    pub meta: PageTablePageMeta,
    pub table: Vec<Child>,
    /// The number of the range of the translated address bits that the node
    /// covers: the translated bits of its addresses above those that its
    /// entries cover.
    pub prefix: Ghost<int>,
}

/// The number of the range that a node of `level` covering `va` covers.
pub open spec fn range_number(va: int, level: int) -> int {
    (va % 0x1_0000_0000_0000) / (page_size_spec(level + 1) as int)
}

/// The frame number of a physical address.
pub open spec fn frame_of(pa: Paddr) -> int {
    (pa / PAGE_SIZE) as int
}

/// The number of present children in a table.
pub open spec fn nr_present(s: Seq<Child>) -> nat
    decreases s.len(),
{
    if s.len() == 0 {
        0
    } else {
        nr_present(s.drop_last()) + if s.last() is Empty { 0nat } else { 1nat }
    }
}

/// Whether `pte` is the entry that represents `child` in a node of `level`.
pub open spec fn entry_matches<E: PageTableEntryTrait>(pte: E, child: Child, level: PagingLevel) -> bool {
    match child {
        Child::Empty => !pte.spec_present() && !pte.spec_last(level),
        Child::PageTable(raw) => {
            &&& pte.spec_present()
            &&& !pte.spec_last(level)
            &&& pte.spec_paddr() == raw.raw
        },
        Child::Frame(f, prop) => {
            &&& pte.spec_present()
            &&& pte.spec_last(level)
            &&& pte.spec_paddr() == f.paddr()
            &&& pte.spec_prop() == prop
        },
        Child::Untracked(pa, _, prop) => {
            &&& pte.spec_present()
            &&& pte.spec_last(level)
            &&& pte.spec_paddr() == pa
            &&& pte.spec_prop() == prop
        },
    }
}

/// The physical memory that page tables live in: the PTE contents of every
/// frame, and the records of the frames that are page table nodes.
pub struct PageTableMem<E: PageTableEntryTrait> {
    /// The PTEs stored in each physical frame, indexed by frame number.
    pub ptes: Vec<Vec<E>>,
    /// The node record of each frame that is a page table node.
    pub nodes: Vec<Option<NodeRecord>>,
}

impl<E: PageTableEntryTrait> PageTableMem<E> {
    /// The record of the node at `pa`.
    pub open spec fn node(&self, pa: Paddr) -> NodeRecord {
        self.nodes@[frame_of(pa)]->Some_0
    }

    /// The PTE at index `i` of the frame at `pa`.
    pub open spec fn pte(&self, pa: Paddr, i: int) -> E {
        self.ptes@[frame_of(pa)]@[i]
    }

    /// Whether a node of `level` lives at `pa`.
    pub open spec fn is_node(&self, pa: Paddr, level: int) -> bool {
        &&& pa % PAGE_SIZE == 0
        &&& frame_of(pa) < self.nodes@.len()
        &&& self.nodes@[frame_of(pa)] is Some
        &&& self.node(pa).meta.level == level
    }

    /// Whether `child` may stand in a node of `level` with tracking status
    /// `tracking`, pointing at things that exist.
    pub open spec fn child_ok(&self, fm: &FrameManager, child: Child, level: PagingLevel, tracking: MapTrackingStatus) -> bool {
        match child {
            Child::PageTable(raw) => raw.level + 1 == level && self.is_node(raw.raw, raw.level as int),
            Child::Frame(f, _) => level == 1 && tracking == MapTrackingStatus::TrackedPages && f.valid(fm),
            Child::Untracked(pa, l, _) => {
                &&& l == level
                &&& tracking == MapTrackingStatus::Untracked
                &&& pa + page_size_spec(l as int) <= 0x1_0000_0000_0000_0000int
            },
            Child::Empty => true,
        }
    }

    /// The node record at frame `k` is well formed: it describes frame `k`,
    /// has 512 children that point at things that exist and that its PTEs
    /// represent, counts its present children, and its frame is in use.
    pub open spec fn node_wf(&self, fm: &FrameManager, k: int) -> bool {
        self.nodes@[k] is Some ==> {
            let rec = self.nodes@[k]->Some_0;
            &&& rec.meta.paddr == k * PAGE_SIZE
            &&& 1 <= rec.meta.level <= NR_LEVELS
            &&& rec.table@.len() == 512
            &&& rec.meta.nr_children == nr_present(rec.table@)
            &&& fm.ref_count_of(k) != 0
            &&& fm.ref_count_of(k) != REF_COUNT_UNUSED
            &&& forall|i: int| 0 <= i < 512 ==> #[trigger] self.child_ok(fm, rec.table@[i], rec.meta.level, rec.meta.is_tracked)
            &&& forall|i: int| 0 <= i < 512 ==> entry_matches(#[trigger] self.ptes@[k]@[i], rec.table@[i], rec.meta.level)
            &&& forall|i: int| 0 <= i < 512 ==> (#[trigger] rec.table@[i] matches Child::PageTable(raw)
                ==> self.nodes@[frame_of(raw.raw)]->Some_0.prefix@ == rec.prefix@ * 512 + i)
        }
    }

    /// The memory covers the frames of `fm`, each frame holds 512 entries
    /// and every node record is well formed.
    pub open spec fn wf(&self, fm: &FrameManager) -> bool {
        &&& self.ptes@.len() == fm.nr_frames()
        &&& self.nodes@.len() == fm.nr_frames()
        &&& forall|k: int| 0 <= k < self.ptes@.len() ==> (#[trigger] self.ptes@[k])@.len() == 512
        &&& forall|k: int| 0 <= k < self.nodes@.len() ==> #[trigger] self.node_wf(fm, k)
    }

    /// The leaf that `va` resolves to below the node at `pa` of `level`:
    /// the first child on the path that is not a node, with its level.
    pub open spec fn lookup(&self, pa: Paddr, level: int, va: u64) -> (Child, int)
        decreases level,
    {
        let child = self.node(pa).table@[pte_index_spec(va, level) as int];
        match child {
            Child::PageTable(raw) => if level > 1 {
                self.lookup(raw.raw, level - 1, va)
            } else {
                (child, level)
            },
            _ => (child, level),
        }
    }
}

/// Updating one child changes the count of present children by the
/// difference of presence.
pub proof fn lemma_nr_present_update(s: Seq<Child>, i: int, c: Child)
    requires
        0 <= i < s.len(),
    ensures
        nr_present(s.update(i, c)) == nr_present(s) - (if s[i] is Empty { 0int } else { 1int }) + (if c is Empty {
            0int
        } else {
            1int
        }),
    decreases s.len(),
{
    let t = s.update(i, c);
    if i == s.len() - 1 {
        assert(t.drop_last() =~= s.drop_last());
    } else {
        assert(t.drop_last() =~= s.drop_last().update(i, c));
        lemma_nr_present_update(s.drop_last(), i, c);
    }
}

/// At most every child is present.
pub proof fn lemma_nr_present_bound(s: Seq<Child>)
    ensures
        nr_present(s) <= s.len(),
    decreases s.len(),
{
    if s.len() > 0 {
        lemma_nr_present_bound(s.drop_last());
    }
}

/// A table of absent children has no present child.
pub proof fn lemma_nr_present_all_empty(s: Seq<Child>)
    requires
        forall|i: int| 0 <= i < s.len() ==> s[i] is Empty,
    ensures
        nr_present(s) == 0,
    decreases s.len(),
{
    if s.len() > 0 {
        lemma_nr_present_all_empty(s.drop_last());
    }
}

impl<E: PageTableEntryTrait> PageTableMem<E> {
    /// The frames of the records that exist in `self` still hold records of
    /// the same level in `other`; frames other than `k` are unchanged.
    pub open spec fn same_except(&self, other: &Self, k: int) -> bool {
        &&& other.ptes@.len() == self.ptes@.len()
        &&& other.nodes@.len() == self.nodes@.len()
        &&& forall|j: int| 0 <= j < self.nodes@.len() && j != k ==> #[trigger] other.nodes@[j] == self.nodes@[j]
        &&& forall|j: int| 0 <= j < self.ptes@.len() && j != k ==> #[trigger] other.ptes@[j] == self.ptes@[j]
        &&& self.nodes@[k] is Some ==> {
            &&& other.nodes@[k] is Some
            &&& (other.nodes@[k]->Some_0).meta.level == (self.nodes@[k]->Some_0).meta.level
            &&& (other.nodes@[k]->Some_0).prefix == (self.nodes@[k]->Some_0).prefix
        }
    }

    /// Changing the records and PTEs of frame `k` keeps the memory well
    /// formed when the new record of `k` is well formed.
    pub proof fn lemma_wf_update(&self, other: &Self, fm: &FrameManager, k: int)
        requires
            self.wf(fm),
            0 <= k < self.nodes@.len(),
            self.same_except(other, k),
            other.ptes@[k]@.len() == 512,
            other.node_wf(fm, k),
        ensures
            other.wf(fm),
    {
        assert forall|j: int| 0 <= j < other.ptes@.len() implies (#[trigger] other.ptes@[j])@.len() == 512 by {
            if j != k {
                assert(self.ptes@[j]@.len() == 512);
            }
        }
        assert forall|j: int| 0 <= j < other.nodes@.len() implies #[trigger] other.node_wf(fm, j) by {
            if j != k {
                assert(self.node_wf(fm, j));
                if other.nodes@[j] is Some {
                    let rec = other.nodes@[j]->Some_0;
                    assert forall|i: int| 0 <= i < 512 implies #[trigger] other.child_ok(fm, rec.table@[i], rec.meta.level, rec.meta.is_tracked) by {
                        assert(self.child_ok(fm, rec.table@[i], rec.meta.level, rec.meta.is_tracked));
                    }
                    assert forall|i: int| 0 <= i < 512 implies (#[trigger] rec.table@[i] matches Child::PageTable(raw)
                        ==> other.nodes@[frame_of(raw.raw)]->Some_0.prefix@ == rec.prefix@ * 512 + i) by {
                        if let Child::PageTable(raw) = rec.table@[i] {
                            assert(self.child_ok(fm, rec.table@[i], rec.meta.level, rec.meta.is_tracked));
                            if frame_of(raw.raw) != k {
                                assert(other.nodes@[frame_of(raw.raw)] == self.nodes@[frame_of(raw.raw)]);
                            }
                        }
                    }
                }
            }
        }
    }

    /// The memory stays well formed when reference counts change only so
    /// that frames in use stay in use.
    pub proof fn lemma_wf_fm(&self, fm1: &FrameManager, fm2: &FrameManager)
        requires
            self.wf(fm1),
            fm2.nr_frames() == fm1.nr_frames(),
            forall|j: int| 0 <= j < fm1.nr_frames() && #[trigger] fm1.in_use(j) ==> fm2.in_use(j),
        ensures
            self.wf(fm2),
    {
        assert forall|j: int| 0 <= j < self.nodes@.len() implies #[trigger] self.node_wf(fm2, j) by {
            assert(self.node_wf(fm1, j));
            if self.nodes@[j] is Some {
                let rec = self.nodes@[j]->Some_0;
                assert(fm1.in_use(j));
                assert forall|i: int| 0 <= i < 512 implies #[trigger] self.child_ok(fm2, rec.table@[i], rec.meta.level, rec.meta.is_tracked) by {
                    assert(self.child_ok(fm1, rec.table@[i], rec.meta.level, rec.meta.is_tracked));
                    match rec.table@[i] {
                        Child::Frame(f, _) => {
                            f.lemma_slot_ok_same_frames(fm1, fm2);
                            f.lemma_slot_ok_bounds(fm1);
                            assert(fm1.in_use(f.index()));
                        },
                        _ => {},
                    }
                }
            }
        }
    }
}

impl Child {
    /// Whether the child maps nothing.
    pub fn is_none(&self) -> (r: bool)
        ensures
            r == (*self is Empty),
    {
        match self {
            Child::Empty => true,
            _ => false,
        }
    }

    /// Whether the child may be a child of a node of `node_level` whose
    /// tracking status is `is_tracked`.
    pub open spec fn compatible_spec(&self, node_level: PagingLevel, is_tracked: MapTrackingStatus) -> bool {
        match *self {
            Child::PageTable(pt) => node_level == pt.level + 1,
            Child::Frame(_, _) => node_level == 1 && is_tracked == MapTrackingStatus::TrackedPages,
            Child::Untracked(_, level, _) => node_level == level && is_tracked == MapTrackingStatus::Untracked,
            Child::Empty => true,
        }
    }

    /// Whether the child may be a child of a node of `node_level` whose
    /// tracking status is `is_tracked`.
    pub fn is_compatible(&self, node_level: PagingLevel, is_tracked: MapTrackingStatus) -> (r: bool)
        ensures
            r == self.compatible_spec(node_level, is_tracked),
    {
        match self {
            Child::PageTable(pt) => pt.level < 255 && node_level == pt.level() + 1,
            Child::Frame(p, _) => node_level == p.level() && is_tracked == MapTrackingStatus::TrackedPages,
            Child::Untracked(_, level, _) => node_level == *level && is_tracked == MapTrackingStatus::Untracked,
            Child::Empty => true,
        }
    }

    /// The PTE that represents the child.
    pub fn get_entry<E: PageTableEntryTrait>(&self) -> (r: E)
        requires
            *self is Frame ==> (self->Frame_0).well_placed(),
        ensures
            forall|l: PagingLevel| #[trigger] entry_matches(r, *self, l),
    {
        match self {
            Child::PageTable(pt) => E::new_pt(pt.paddr()),
            Child::Frame(page, prop) => {
                let level = page.level();
                E::new_page(page.start_paddr(), level, *prop)
            },
            Child::Untracked(pa, level, prop) => E::new_page(*pa, *level, *prop),
            Child::Empty => E::new_absent(),
        }
    }
}

impl RawPageTableNode {
    /// The physical address of the node.
    pub fn paddr(&self) -> (r: Paddr)
        ensures
            r == self.raw,
    {
        self.raw
    }

    /// The level of the node.
    pub fn level(&self) -> (r: PagingLevel)
        ensures
            r == self.level,
    {
        self.level
    }

    /// Acquires the node for exclusive access by the kernel, which this
    /// single-threaded model grants at once.
    pub fn lock(&self) -> (r: PageTableNode)
        ensures
            r.page == *self,
    {
        PageTableNode { page: *self }
    }
}

/// An accessible handle of a page table node, through which the kernel reads
/// and writes its entries.
#[derive(Clone, Copy, Debug, PartialEq, Eq, Structural)]
pub struct PageTableNode {
    pub page: RawPageTableNode,
}

impl RawPageTableNode {
    /// Creates another handle of the node, taking a reference of its frame.
    ///
    /// Reaching `REF_COUNT_MAX` panics (excluded here).
    pub fn clone_shallow(&self, fm: &mut FrameManager) -> (r: Self)
        requires
            old(fm).wf(),
            self.raw % PAGE_SIZE == 0,
            self.raw < old(fm).max_paddr(),
            old(fm).in_use(frame_of(self.raw)),
            old(fm).ref_count_of(frame_of(self.raw)) < REF_COUNT_MAX,
        ensures
            r == *self,
            final(fm).wf(),
            final(fm).allocator_spec() == old(fm).allocator_spec(),
            final(fm).ref_counts() == old(fm).ref_counts().update(
                frame_of(self.raw),
                (old(fm).ref_count_of(frame_of(self.raw)) + 1) as u32,
            ),
    {
        crate::mm::frame::inc_frame_ref_count(self.raw, fm);
        *self
    }

    /// Drops the handle, giving back its reference of the node's frame.
    ///
    /// The handle must not be the last one: the last reference of a node is
    /// given back together with the node itself.
    pub fn drop(self, fm: &mut FrameManager)
        requires
            old(fm).wf(),
            self.raw % PAGE_SIZE == 0,
            self.raw < old(fm).max_paddr(),
            old(fm).in_use(frame_of(self.raw)),
            old(fm).ref_count_of(frame_of(self.raw)) > 1,
        ensures
            final(fm).wf(),
            final(fm).allocator_spec() == old(fm).allocator_spec(),
            final(fm).ref_counts() == old(fm).ref_counts().update(
                frame_of(self.raw),
                (old(fm).ref_count_of(frame_of(self.raw)) - 1) as u32,
            ),
    {
        proof {
            let n = old(fm).nr_frames();
            assert(self.raw / PAGE_SIZE < n) by (nonlinear_arith)
                requires self.raw < n * 4096;
        }
        let frame = Frame::<Unknown>::from_raw(self.raw);
        proof {
            frame.lemma_slot_ok_from_paddr(fm);
        }
        frame.drop(fm);
    }

    /// The child at index `idx` of the node.
    pub fn get_child<'a, E: PageTableEntryTrait>(&self, mem: &'a PageTableMem<E>, idx: usize) -> (r: &'a Child)
        requires
            mem.is_node(self.raw, self.level as int),
            mem.nodes@[frame_of(self.raw)]->Some_0.table@.len() == 512,
            idx < 512,
        ensures
            *r == mem.node(self.raw).table@[idx as int],
    {
        let n = mem.nodes.len();
        let k = (self.raw / PAGE_SIZE) as usize;
        let rec = mem.nodes[k].as_ref().unwrap();
        &rec.table[idx]
    }

    /// Allocates a new empty page table node of `level` whose mapped pages
    /// have tracking status `is_tracked`.
    ///
    /// The node's frame comes zeroed from the frame allocator, so all its
    /// PTEs are absent; the new handle holds the frame's only reference.
    /// Running out of memory panics (excluded here).
    pub fn alloc_empty_pt<E: PageTableEntryTrait>(
        level: PagingLevel,
        is_tracked: MapTrackingStatus,
        Ghost(prefix): Ghost<int>,
        mem: &mut PageTableMem<E>,
        fm: &mut FrameManager,
    ) -> (r: Self)
        requires
            old(fm).wf(),
            old(mem).wf(old(fm)),
            old(fm).can_alloc(1),
            1 <= level <= NR_LEVELS,
        ensures
            final(fm).wf(),
            final(mem).wf(final(fm)),
            forall|n: nat| old(fm).can_alloc(n + 1) ==> #[trigger] final(fm).can_alloc(n),
            final(fm).allocator_spec().frame_counters().0 == old(fm).allocator_spec().frame_counters().0 + 1,
            final(fm).allocator_spec().allocated_spec() == old(fm).allocator_spec().allocated_spec() + PAGE_SIZE_BYTES,
            final(fm).allocator_spec().free_frames().len() == old(fm).allocator_spec().free_frames().len() - 1,
            old(fm).is_free(frame_of(r.raw) as usize),
            final(fm).ref_counts() == old(fm).ref_counts().update(frame_of(r.raw), 1),
            r.level == level,
            old(mem).nodes@[frame_of(r.raw)] is None,
            final(mem).is_node(r.raw, level as int),
            old(mem).same_except(final(mem), frame_of(r.raw)),
            final(mem).node(r.raw).meta.nr_children == 0,
            final(mem).node(r.raw).meta.is_tracked == is_tracked,
            final(mem).node(r.raw).meta.paddr == r.raw,
            final(mem).node(r.raw).prefix@ == prefix,
            forall|i: int| 0 <= i < 512 ==> #[trigger] final(mem).node(r.raw).table@[i] is Empty,
            forall|i: int| 0 <= i < 512 ==> !(#[trigger] final(mem).pte(r.raw, i)).spec_present(),
    {
        let mut opts = FrameAllocOptions::new();
        let res = opts.zeroed(true).take_frame(fm);
        proof {
            broadcast use vstd::multiset::group_multiset_axioms;
            if res is Err {
                vstd::multiset::lemma_multiset_empty_len(old(fm).allocator_spec().free_frames());
                let v = choose|v: usize| 0 < old(fm).allocator_spec().free_frames().count(v);
                assert(old(fm).is_free(v));
            }
        }
        let frame = match res {
            Ok(f) => f,
            Err(_) => {
                proof { assert(false); }
                return RawPageTableNode { raw: 0, level };
            },
        };
        proof {
            broadcast use vstd::multiset::group_multiset_axioms;
            frame.lemma_slot_ok_bounds(fm);
            assert(old(fm).allocator_spec().free_frames().count(frame.index() as usize) > 0);
            assert(old(fm).allocator_spec().free_frames().remove(frame.index() as usize).len()
                == old(fm).allocator_spec().free_frames().len() - 1);
        }
        let ghost idx = frame.index();
        let paddr = frame.into_raw();
        let nn = mem.nodes.len();
        let k = (paddr / PAGE_SIZE) as usize;
        proof {
            assert(old(fm).in_use(idx) == false);
            assert(old(mem).node_wf(old(fm), idx));
            assert forall|j: int| 0 <= j < old(fm).nr_frames() && #[trigger] old(fm).in_use(j) implies fm.in_use(j) by {
                if j != idx {
                    assert(fm.ref_count_of(j) == old(fm).ref_count_of(j));
                }
            }
            mem.lemma_wf_fm(old(fm), fm);
        }
        // The zeroed frame: every PTE absent.
        let mut ptes: Vec<E> = Vec::new();
        let mut table: Vec<Child> = Vec::new();
        let mut i: usize = 0;
        while i < 512
            invariant
                i <= 512,
                ptes@.len() == i,
                table@.len() == i,
                forall|j: int| 0 <= j < i ==> !(#[trigger] ptes@[j]).spec_present(),
                forall|j: int, l: PagingLevel| 0 <= j < i ==> !(#[trigger] ptes@[j].spec_last(l)),
                forall|j: int| 0 <= j < i ==> #[trigger] table@[j] is Empty,
            decreases 512 - i,
        {
            ptes.push(E::new_absent());
            table.push(Child::Empty);
            i = i + 1;
        }
        proof {
            lemma_nr_present_all_empty(table@);
        }
        let meta = PageTablePageMeta::new_locked(level, is_tracked, paddr);
        let ghost before = *mem;
        let mut slot = Some(NodeRecord { meta, table, prefix: Ghost(prefix) });
        mem.nodes.set_and_swap(k, &mut slot);
        mem.ptes.set_and_swap(k, &mut ptes);
        proof {
            assert(before.nodes@[k as int] is None);
            assert(mem.node_wf(fm, k as int)) by {
                let rec = mem.nodes@[k as int]->Some_0;
                assert forall|j: int| 0 <= j < 512 implies #[trigger] mem.child_ok(fm, rec.table@[j], rec.meta.level, rec.meta.is_tracked) by {
                }
                assert forall|j: int| 0 <= j < 512 implies entry_matches(#[trigger] mem.ptes@[k as int]@[j], rec.table@[j], rec.meta.level) by {
                }
                assert(paddr == k * PAGE_SIZE) by (nonlinear_arith)
                    requires paddr % 4096 == 0, k == paddr / 4096;
            }
            before.lemma_wf_update(mem, fm, k as int);
        }
        RawPageTableNode { raw: paddr, level }
    }
}

impl PageTableNode {
    /// The level of the node.
    pub fn level(&self) -> (r: PagingLevel)
        ensures
            r == self.page.level,
    {
        self.page.level()
    }

    /// The record of the node in `mem`.
    fn record<'a, E: PageTableEntryTrait>(&self, mem: &'a PageTableMem<E>) -> (r: &'a NodeRecord)
        requires
            mem.is_node(self.page.raw, self.page.level as int),
        ensures
            *r == mem.node(self.page.raw),
    {
        let n = mem.nodes.len();
        let k = (self.page.raw / PAGE_SIZE) as usize;
        mem.nodes[k].as_ref().unwrap()
    }

    /// The tracking status of the pages that the node maps.
    pub fn is_tracked<E: PageTableEntryTrait>(&self, mem: &PageTableMem<E>) -> (r: MapTrackingStatus)
        requires
            mem.is_node(self.page.raw, self.page.level as int),
        ensures
            r == mem.node(self.page.raw).meta.is_tracked,
    {
        self.record(mem).meta.is_tracked
    }

    /// The number of present entries of the node.
    pub fn nr_children<E: PageTableEntryTrait>(&self, mem: &PageTableMem<E>) -> (r: u16)
        requires
            mem.is_node(self.page.raw, self.page.level as int),
        ensures
            r == mem.node(self.page.raw).meta.nr_children,
    {
        self.record(mem).meta.nr_children
    }

    /// Reads the PTE at index `idx`, without taking any reference of what it
    /// points to.
    pub fn read_pte<E: PageTableEntryTrait>(&self, mem: &PageTableMem<E>, idx: usize) -> (r: E)
        requires
            mem.ptes@.len() == mem.nodes@.len(),
            mem.is_node(self.page.raw, self.page.level as int),
            mem.ptes@[frame_of(self.page.raw)]@.len() == 512,
            idx < 512,
        ensures
            r == mem.pte(self.page.raw, idx as int),
    {
        let n = mem.ptes.len();
        let k = (self.page.raw / PAGE_SIZE) as usize;
        mem.ptes[k][idx]
    }

    /// Borrows the entry at index `idx`.
    ///
    /// An index out of the node panics (excluded here).
    pub fn entry<E: PageTableEntryTrait>(&self, mem: &PageTableMem<E>, idx: usize) -> (r: Entry<E>)
        requires
            mem.ptes@.len() == mem.nodes@.len(),
            mem.is_node(self.page.raw, self.page.level as int),
            mem.ptes@[frame_of(self.page.raw)]@.len() == 512,
            idx < 512,
        ensures
            r.node == *self,
            r.idx == idx,
            r.pte == mem.pte(self.page.raw, idx as int),
    {
        Entry::new_at(*self, mem, idx)
    }
}

/// A view of one entry of a page table node: the entry's PTE, read when the
/// view was made, its index and its node.
pub struct Entry<E: PageTableEntryTrait> {
    pub pte: E,
    pub idx: usize,
    pub node: PageTableNode,
}

impl<E: PageTableEntryTrait> Entry<E> {
    /// Creates the view of entry `idx` of `node`.
    pub fn new_at(node: PageTableNode, mem: &PageTableMem<E>, idx: usize) -> (r: Self)
        requires
            mem.ptes@.len() == mem.nodes@.len(),
            mem.is_node(node.page.raw, node.page.level as int),
            mem.ptes@[frame_of(node.page.raw)]@.len() == 512,
            idx < 512,
        ensures
            r.node == node,
            r.idx == idx,
            r.pte == mem.pte(node.page.raw, idx as int),
    {
        let pte = node.read_pte(mem, idx);
        Entry { pte, idx, node }
    }

    /// Whether the entry maps nothing.
    pub fn is_none(&self) -> (r: bool)
        ensures
            r == !self.pte.spec_present(),
    {
        !self.pte.is_present()
    }

    /// Whether the entry points to a child node.
    pub fn is_node(&self) -> (r: bool)
        ensures
            r == (self.pte.spec_present() && !self.pte.spec_last(self.node.page.level)),
    {
        self.pte.is_present() && !self.pte.is_last(self.node.level())
    }
}

/// The child with its property replaced by `prop`, for a mapped page.
pub open spec fn with_prop(c: Child, prop: PageProperty) -> Child {
    match c {
        Child::Frame(f, _) => Child::Frame(f, prop),
        Child::Untracked(pa, l, _) => Child::Untracked(pa, l, prop),
        _ => c,
    }
}

impl<E: PageTableEntryTrait> PageTableMem<E> {
    /// `self` is `old` with the child at `idx` of the node at `pa` replaced by
    /// `c` and the PTE there by `pte`.
    pub open spec fn child_replaced(&self, old: &Self, pa: Paddr, idx: int, c: Child, pte: E) -> bool {
        &&& old.same_except(self, frame_of(pa))
        &&& self.nodes@[frame_of(pa)] is Some
        &&& self.node(pa).meta.level == old.node(pa).meta.level
        &&& self.node(pa).meta.is_tracked == old.node(pa).meta.is_tracked
        &&& self.node(pa).meta.paddr == old.node(pa).meta.paddr
        &&& self.node(pa).table@ == old.node(pa).table@.update(idx, c)
        &&& self.ptes@[frame_of(pa)]@ == old.ptes@[frame_of(pa)]@.update(idx, pte)
    }
}

impl PageTableNode {
    /// Writes `pte` at index `idx` of the node's frame.
    fn write_pte<E: PageTableEntryTrait>(&self, mem: &mut PageTableMem<E>, idx: usize, pte: E)
        requires
            old(mem).ptes@.len() == old(mem).nodes@.len(),
            old(mem).is_node(self.page.raw, self.page.level as int),
            old(mem).ptes@[frame_of(self.page.raw)]@.len() == 512,
            idx < 512,
        ensures
            final(mem).nodes == old(mem).nodes,
            final(mem).ptes@.len() == old(mem).ptes@.len(),
            forall|j: int| 0 <= j < old(mem).ptes@.len() && j != frame_of(self.page.raw) ==> #[trigger] final(mem).ptes@[j] == old(mem).ptes@[j],
            final(mem).ptes@[frame_of(self.page.raw)]@ == old(mem).ptes@[frame_of(self.page.raw)]@.update(idx as int, pte),
    {
        let n = mem.ptes.len();
        let k = (self.page.raw / PAGE_SIZE) as usize;
        let mut row: Vec<E> = Vec::new();
        mem.ptes.set_and_swap(k, &mut row);
        row.set(idx, pte);
        mem.ptes.set_and_swap(k, &mut row);
    }

    /// Puts `c` at index `idx` of the node's table, keeping the count of
    /// present children; returns the old child.
    fn set_child<E: PageTableEntryTrait>(&self, mem: &mut PageTableMem<E>, idx: usize, c: Child) -> (r: Child)
        requires
            old(mem).is_node(self.page.raw, self.page.level as int),
            old(mem).node(self.page.raw).table@.len() == 512,
            old(mem).node(self.page.raw).meta.nr_children == nr_present(old(mem).node(self.page.raw).table@),
            idx < 512,
        ensures
            r == old(mem).node(self.page.raw).table@[idx as int],
            final(mem).ptes == old(mem).ptes,
            final(mem).nodes@.len() == old(mem).nodes@.len(),
            forall|j: int| 0 <= j < old(mem).nodes@.len() && j != frame_of(self.page.raw) ==> #[trigger] final(mem).nodes@[j] == old(mem).nodes@[j],
            final(mem).nodes@[frame_of(self.page.raw)] is Some,
            final(mem).node(self.page.raw).meta.level == old(mem).node(self.page.raw).meta.level,
            final(mem).node(self.page.raw).meta.is_tracked == old(mem).node(self.page.raw).meta.is_tracked,
            final(mem).node(self.page.raw).meta.paddr == old(mem).node(self.page.raw).meta.paddr,
            final(mem).node(self.page.raw).meta.lock == old(mem).node(self.page.raw).meta.lock,
            final(mem).node(self.page.raw).prefix == old(mem).node(self.page.raw).prefix,
            final(mem).node(self.page.raw).table@ == old(mem).node(self.page.raw).table@.update(idx as int, c),
            final(mem).node(self.page.raw).meta.nr_children == nr_present(final(mem).node(self.page.raw).table@),
    {
        let n = mem.nodes.len();
        let k = (self.page.raw / PAGE_SIZE) as usize;
        let ghost old_table = old(mem).node(self.page.raw).table@;
        let mut slot: Option<NodeRecord> = None;
        mem.nodes.set_and_swap(k, &mut slot);
        let mut rec = slot.unwrap();
        let was_none = rec.table[idx].is_none();
        let now_none = c.is_none();
        let mut old_child = c;
        rec.table.set_and_swap(idx, &mut old_child);
        proof {
            lemma_nr_present_update(old_table, idx as int, c);
            lemma_nr_present_bound(old_table);
            lemma_nr_present_bound(rec.table@);
        }
        if was_none && !now_none {
            rec.meta.nr_children = rec.meta.nr_children + 1;
        } else if !was_none && now_none {
            rec.meta.nr_children = rec.meta.nr_children - 1;
        }
        let mut slot2 = Some(rec);
        mem.nodes.set_and_swap(k, &mut slot2);
        proof {
            assert forall|j: int| 0 <= j < old(mem).nodes@.len() && j != frame_of(self.page.raw) implies #[trigger] mem.nodes@[j] == old(mem).nodes@[j] by {
            }
        }
        old_child
    }
}

impl<E: PageTableEntryTrait> Entry<E> {
    /// Gets an owned handle of the child: another reference of a child node
    /// or mapped frame.
    ///
    /// Reaching `REF_COUNT_MAX` panics (excluded here).
    pub fn to_owned(&self, mem: &PageTableMem<E>, fm: &mut FrameManager) -> (r: Child)
        requires
            old(fm).wf(),
            mem.wf(old(fm)),
            mem.is_node(self.node.page.raw, self.node.page.level as int),
            self.idx < 512,
            match mem.node(self.node.page.raw).table@[self.idx as int] {
                Child::PageTable(raw) => old(fm).ref_count_of(frame_of(raw.raw)) < REF_COUNT_MAX,
                Child::Frame(f, _) => old(fm).ref_count_of(f.index()) < REF_COUNT_MAX,
                _ => true,
            },
        ensures
            r == mem.node(self.node.page.raw).table@[self.idx as int],
            final(fm).wf(),
            mem.wf(final(fm)),
            final(fm).allocator_spec() == old(fm).allocator_spec(),
            final(fm).nr_frames() == old(fm).nr_frames(),
            match r {
                Child::PageTable(raw) => final(fm).ref_counts() == old(fm).ref_counts().update(
                    frame_of(raw.raw),
                    (old(fm).ref_count_of(frame_of(raw.raw)) + 1) as u32,
                ),
                Child::Frame(f, _) => final(fm).ref_counts() == old(fm).ref_counts().update(
                    f.index(),
                    (old(fm).ref_count_of(f.index()) + 1) as u32,
                ),
                _ => *final(fm) == *old(fm),
            },
    {
        let ghost k = frame_of(self.node.page.raw);
        proof {
            assert(mem.node_wf(old(fm), k));
            assert(mem.child_ok(old(fm), mem.node(self.node.page.raw).table@[self.idx as int], mem.node(self.node.page.raw).meta.level, mem.node(self.node.page.raw).meta.is_tracked));
        }
        let child = self.node.page.get_child(mem, self.idx);
        let r = match child {
            Child::PageTable(raw) => {
                proof {
                    let n = old(fm).nr_frames();
                    let kk = frame_of(raw.raw);
                    assert(mem.node_wf(old(fm), kk));
                    assert(raw.raw < n * 4096) by (nonlinear_arith)
                        requires kk == raw.raw / 4096, kk < n, raw.raw % 4096 == 0;
                }
                let r2 = raw.clone_shallow(fm);
                proof { lemma_inc_keeps_in_use(old(fm), fm, frame_of(raw.raw)); }
                Child::PageTable(r2)
            },
            Child::Frame(f, prop) => {
                proof { f.lemma_slot_ok_bounds(old(fm)); }
                let f2 = f.clone(fm);
                proof { lemma_inc_keeps_in_use(old(fm), fm, f.index()); }
                Child::Frame(f2, *prop)
            },
            Child::Untracked(pa, level, prop) => Child::Untracked(*pa, *level, *prop),
            Child::Empty => Child::Empty,
        };
        proof {
            mem.lemma_wf_fm(old(fm), fm);
        }
        r
    }
}

/// Incrementing one reference count below `REF_COUNT_MAX` keeps every frame
/// in use in use.
pub proof fn lemma_inc_keeps_in_use(fm1: &FrameManager, fm2: &FrameManager, k: int)
    requires
        0 <= k < fm1.nr_frames(),
        fm1.ref_count_of(k) < REF_COUNT_MAX,
        fm2.ref_counts() == fm1.ref_counts().update(k, (fm1.ref_count_of(k) + 1) as u32),
    ensures
        fm2.nr_frames() == fm1.nr_frames(),
        forall|j: int| 0 <= j < fm1.nr_frames() && #[trigger] fm1.in_use(j) ==> fm2.in_use(j),
{
    assert forall|j: int| 0 <= j < fm1.nr_frames() && #[trigger] fm1.in_use(j) implies fm2.in_use(j) by {
        if j != k {
            assert(fm2.ref_count_of(j) == fm1.ref_count_of(j));
        }
    }
}

impl<E: PageTableEntryTrait> PageTableMem<E> {
    /// A child that points at things that exist still does after a change
    /// that keeps every record and its level.
    pub proof fn lemma_child_ok_kept(&self, other: &Self, fm: &FrameManager, k: int, c: Child, level: PagingLevel, tracking: MapTrackingStatus)
        requires
            self.same_except(other, k),
            self.child_ok(fm, c, level, tracking),
        ensures
            other.child_ok(fm, c, level, tracking),
    {
        match c {
            Child::PageTable(raw) => {
                if frame_of(raw.raw) != k {
                    assert(other.nodes@[frame_of(raw.raw)] == self.nodes@[frame_of(raw.raw)]);
                }
            },
            _ => {},
        }
    }

    /// A record whose children point at things that exist and whose PTEs
    /// represent them is well formed.
    proof fn lemma_node_wf_intro(&self, fm: &FrameManager, k: int)
        requires
            self.nodes@[k] is Some,
            ({
                let rec = self.nodes@[k]->Some_0;
                &&& rec.meta.paddr == k * PAGE_SIZE
                &&& 1 <= rec.meta.level <= NR_LEVELS
                &&& rec.table@.len() == 512
                &&& rec.meta.nr_children == nr_present(rec.table@)
                &&& fm.in_use(k)
                &&& forall|i: int| 0 <= i < 512 ==> #[trigger] self.child_ok(fm, rec.table@[i], rec.meta.level, rec.meta.is_tracked)
                &&& forall|i: int| 0 <= i < 512 ==> entry_matches(#[trigger] self.ptes@[k]@[i], rec.table@[i], rec.meta.level)
                &&& forall|i: int| 0 <= i < 512 ==> (#[trigger] rec.table@[i] matches Child::PageTable(raw)
                    ==> self.nodes@[frame_of(raw.raw)]->Some_0.prefix@ == rec.prefix@ * 512 + i)
            }),
        ensures
            self.node_wf(fm, k),
    {
    }
}

impl<E: PageTableEntryTrait> Entry<E> {
    /// Replaces the child with `new_child`, writing its PTE; returns the old
    /// child.
    ///
    /// A child that does not fit the node (see [`Child::is_compatible`])
    /// panics (excluded here).
    pub fn replace(self, mem: &mut PageTableMem<E>, fm: &FrameManager, new_child: Child) -> (r: Child)
        requires
            fm.wf(),
            old(mem).wf(fm),
            old(mem).is_node(self.node.page.raw, self.node.page.level as int),
            self.idx < 512,
            old(mem).child_ok(fm, new_child, self.node.page.level, old(mem).node(self.node.page.raw).meta.is_tracked),
            new_child matches Child::PageTable(raw) ==> old(mem).nodes@[frame_of(raw.raw)]->Some_0.prefix@
                == old(mem).node(self.node.page.raw).prefix@ * 512 + self.idx,
        ensures
            r == old(mem).node(self.node.page.raw).table@[self.idx as int],
            final(mem).wf(fm),
            final(mem).child_replaced(old(mem), self.node.page.raw, self.idx as int, new_child, final(mem).pte(self.node.page.raw, self.idx as int)),
            entry_matches(final(mem).pte(self.node.page.raw, self.idx as int), new_child, self.node.page.level),
    {
        let ghost k = frame_of(self.node.page.raw);
        proof {
            assert(old(mem).node_wf(fm, k));
            if new_child is Frame {
                (new_child->Frame_0).lemma_slot_ok_bounds(fm);
            }
        }
        let pte: E = new_child.get_entry();
        self.node.write_pte(mem, self.idx, pte);
        let ghost mid = *mem;
        let old_child = self.node.set_child(mem, self.idx, new_child);
        proof {
            assert(old(mem).same_except(mem, k));
            let rec = mem.nodes@[k]->Some_0;
            assert forall|i: int| 0 <= i < 512 implies #[trigger] mem.child_ok(fm, rec.table@[i], rec.meta.level, rec.meta.is_tracked) by {
                if i != self.idx {
                    assert(old(mem).child_ok(fm, old(mem).node(self.node.page.raw).table@[i], rec.meta.level, rec.meta.is_tracked));
                    old(mem).lemma_child_ok_kept(mem, fm, k, rec.table@[i], rec.meta.level, rec.meta.is_tracked);
                } else {
                    old(mem).lemma_child_ok_kept(mem, fm, k, new_child, rec.meta.level, rec.meta.is_tracked);
                }
            }
            assert forall|i: int| 0 <= i < 512 implies entry_matches(#[trigger] mem.ptes@[k]@[i], rec.table@[i], rec.meta.level) by {
                if i != self.idx {
                    assert(entry_matches(old(mem).ptes@[k]@[i], old(mem).node(self.node.page.raw).table@[i], rec.meta.level));
                }
            }
            assert forall|i: int| 0 <= i < 512 implies (#[trigger] rec.table@[i] matches Child::PageTable(raw)
                ==> mem.nodes@[frame_of(raw.raw)]->Some_0.prefix@ == rec.prefix@ * 512 + i) by {
                if let Child::PageTable(raw) = rec.table@[i] {
                    if i != self.idx {
                        assert(old(mem).node(self.node.page.raw).table@[i] == rec.table@[i]);
                        assert(old(mem).child_ok(fm, rec.table@[i], rec.meta.level, rec.meta.is_tracked));
                        assert(frame_of(raw.raw) != k);
                    } else {
                        assert(old(mem).child_ok(fm, new_child, rec.meta.level, rec.meta.is_tracked));
                        assert(frame_of(raw.raw) != k);
                    }
                }
            }
            mem.lemma_node_wf_intro(fm, k);
            old(mem).lemma_wf_update(mem, fm, k);
        }
        old_child
    }
}

impl<E: PageTableEntryTrait> Entry<E> {
    /// Changes the property of the mapping with `op`.
    ///
    /// An absent entry is left as it is; so is an entry whose property `op`
    /// leaves unchanged. Otherwise the PTE and the child get the new
    /// property.
    pub fn protect<F: Fn(PageProperty) -> PageProperty>(&mut self, mem: &mut PageTableMem<E>, fm: &FrameManager, op: &F)
        requires
            fm.wf(),
            old(mem).wf(fm),
            old(mem).is_node(old(self).node.page.raw, old(self).node.page.level as int),
            old(self).idx < 512,
            old(self).pte == old(mem).pte(old(self).node.page.raw, old(self).idx as int),
            forall|p: PageProperty| #[trigger] op.requires((p,)),
        ensures
            final(self).node == old(self).node,
            final(self).idx == old(self).idx,
            final(self).pte == final(mem).pte(final(self).node.page.raw, final(self).idx as int),
            final(mem).wf(fm),
            !old(self).pte.spec_present() ==> *final(mem) == *old(mem) && *final(self) == *old(self),
            old(self).pte.spec_present() ==> {
                &&& op.ensures((old(self).pte.spec_prop(),), final(self).pte.spec_prop())
                &&& final(self).pte.spec_present()
                &&& final(self).pte.spec_paddr() == old(self).pte.spec_paddr()
                &&& forall|l: PagingLevel| #[trigger] final(self).pte.spec_last(l) == old(self).pte.spec_last(l)
                &&& final(mem).child_replaced(
                    old(mem),
                    old(self).node.page.raw,
                    old(self).idx as int,
                    with_prop(old(mem).node(old(self).node.page.raw).table@[old(self).idx as int], final(self).pte.spec_prop()),
                    final(self).pte,
                )
            },
    {
        let ghost k = frame_of(self.node.page.raw);
        let ghost idx = self.idx as int;
        let ghost c = old(mem).node(self.node.page.raw).table@[idx];
        proof {
            assert(old(mem).node_wf(fm, k));
            assert(entry_matches(old(mem).ptes@[k]@[idx], c, self.node.page.level));
            assert(old(mem).child_ok(fm, c, self.node.page.level, old(mem).node(self.node.page.raw).meta.is_tracked));
        }
        if !self.pte.is_present() {
            return;
        }
        let prop = self.pte.prop();
        let new_prop = op(prop);
        if prop == new_prop {
            proof {
                assert(with_prop(c, new_prop) == c);
                assert(old(mem).node(self.node.page.raw).table@ =~= old(mem).node(self.node.page.raw).table@.update(idx, c));
                assert(old(mem).ptes@[k]@ =~= old(mem).ptes@[k]@.update(idx, self.pte));
            }
            return;
        }
        self.pte.set_prop(new_prop);
        self.node.write_pte(mem, self.idx, self.pte);
        let old_child = self.node.set_child(mem, self.idx, Child::Empty);
        let updated = match old_child {
            Child::Frame(f, _) => Child::Frame(f, new_prop),
            Child::Untracked(pa, l, _) => Child::Untracked(pa, l, new_prop),
            other => other,
        };
        let _ = self.node.set_child(mem, self.idx, updated);
        proof {
            assert(updated == with_prop(c, new_prop));
            assert(mem.node(self.node.page.raw).table@ =~= old(mem).node(self.node.page.raw).table@.update(idx, updated));
            assert(old(mem).same_except(mem, k));
            let rec = mem.nodes@[k]->Some_0;
            assert forall|i: int| 0 <= i < 512 implies #[trigger] mem.child_ok(fm, rec.table@[i], rec.meta.level, rec.meta.is_tracked) by {
                assert(old(mem).child_ok(fm, old(mem).node(self.node.page.raw).table@[i], rec.meta.level, rec.meta.is_tracked));
                old(mem).lemma_child_ok_kept(mem, fm, k, old(mem).node(self.node.page.raw).table@[i], rec.meta.level, rec.meta.is_tracked);
            }
            assert forall|i: int| 0 <= i < 512 implies entry_matches(#[trigger] mem.ptes@[k]@[i], rec.table@[i], rec.meta.level) by {
                assert(entry_matches(old(mem).ptes@[k]@[i], old(mem).node(self.node.page.raw).table@[i], rec.meta.level));
            }
            assert forall|i: int| 0 <= i < 512 implies (#[trigger] rec.table@[i] matches Child::PageTable(raw)
                ==> mem.nodes@[frame_of(raw.raw)]->Some_0.prefix@ == rec.prefix@ * 512 + i) by {
                if let Child::PageTable(raw) = rec.table@[i] {
                    assert(old(mem).node(self.node.page.raw).table@[i] == rec.table@[i]);
                    assert(old(mem).child_ok(fm, rec.table@[i], rec.meta.level, rec.meta.is_tracked));
                    assert(frame_of(raw.raw) != k);
                }
            }
            mem.lemma_node_wf_intro(fm, k);
            old(mem).lemma_wf_update(mem, fm, k);
        }
    }
}

impl<E: PageTableEntryTrait> PageTableMem<E> {
    /// `self` is `old` with frames `k1` and `k2` changed: every record of
    /// `old` keeps its level and no other frame changes.
    pub open spec fn same_except2(&self, old: &Self, k1: int, k2: int) -> bool {
        &&& self.ptes@.len() == old.ptes@.len()
        &&& self.nodes@.len() == old.nodes@.len()
        &&& forall|j: int| 0 <= j < old.nodes@.len() && j != k1 && j != k2 ==> #[trigger] self.nodes@[j] == old.nodes@[j]
        &&& forall|j: int| 0 <= j < old.ptes@.len() && j != k1 && j != k2 ==> #[trigger] self.ptes@[j] == old.ptes@[j]
        &&& forall|j: int| 0 <= j < old.nodes@.len() && #[trigger] old.nodes@[j] is Some ==> {
            &&& self.nodes@[j] is Some
            &&& (self.nodes@[j]->Some_0).meta.level == (old.nodes@[j]->Some_0).meta.level
            &&& (self.nodes@[j]->Some_0).prefix == (old.nodes@[j]->Some_0).prefix
        }
    }
}

impl<E: PageTableEntryTrait> Entry<E> {
    /// Whether the entry maps an untracked huge page, which
    /// [`Entry::split_if_untracked_huge`] splits.
    pub open spec fn is_untracked_huge(&self, mem: &PageTableMem<E>) -> bool {
        &&& self.pte.spec_last(self.node.page.level)
        &&& self.node.page.level > 1
        &&& mem.node(self.node.page.raw).meta.is_tracked == MapTrackingStatus::Untracked
    }

    /// Splits the entry if it maps an untracked huge page: a new child node
    /// one level down maps the same memory with 512 smaller pages of the same
    /// property, and takes the entry's place. Returns the new child node, or
    /// `None` if the entry maps no untracked huge page.
    ///
    /// Running out of memory panics (excluded here).
    pub fn split_if_untracked_huge(self, mem: &mut PageTableMem<E>, fm: &mut FrameManager) -> (r: Option<PageTableNode>)
        requires
            old(fm).wf(),
            old(mem).wf(old(fm)),
            old(mem).is_node(self.node.page.raw, self.node.page.level as int),
            self.idx < 512,
            self.pte == old(mem).pte(self.node.page.raw, self.idx as int),
            self.is_untracked_huge(old(mem)) ==> old(fm).can_alloc(1),
        ensures
            final(fm).wf(),
            final(mem).wf(final(fm)),
            !self.is_untracked_huge(old(mem)) ==> r is None && *final(mem) == *old(mem) && *final(fm) == *old(fm),
            self.is_untracked_huge(old(mem)) ==> {
                let k = frame_of(self.node.page.raw);
                let c = old(mem).node(self.node.page.raw).table@[self.idx as int];
                let n = r->Some_0.page;
                let l = self.node.page.level;
                &&& r is Some
                &&& c is Untracked
                &&& n.level == l - 1
                &&& old(fm).is_free(frame_of(n.raw) as usize)
                &&& old(mem).nodes@[frame_of(n.raw)] is None
                &&& final(mem).is_node(n.raw, n.level as int)
                &&& final(mem).same_except2(old(mem), k, frame_of(n.raw))
                &&& final(mem).node(self.node.page.raw).meta.level == old(mem).node(self.node.page.raw).meta.level
                &&& final(mem).node(self.node.page.raw).meta.is_tracked == old(mem).node(self.node.page.raw).meta.is_tracked
                &&& final(mem).node(self.node.page.raw).table@ == old(mem).node(self.node.page.raw).table@.update(self.idx as int, Child::PageTable(n))
                &&& final(mem).node(n.raw).meta.is_tracked == MapTrackingStatus::Untracked
                &&& forall|i: int| 0 <= i < 512 ==> #[trigger] final(mem).node(n.raw).table@[i] == Child::Untracked(
                    (c->Untracked_0 + i * page_size_spec(n.level as int)) as Paddr,
                    n.level,
                    c->Untracked_2,
                )
                &&& forall|m: nat| old(fm).can_alloc(m + 1) ==> #[trigger] final(fm).can_alloc(m)
                &&& final(fm).nr_frames() == old(fm).nr_frames()
            },
    {
        let ghost k = frame_of(self.node.page.raw);
        let ghost idx = self.idx as int;
        let ghost c = old(mem).node(self.node.page.raw).table@[idx];
        proof {
            assert(old(mem).node_wf(old(fm), k));
            assert(entry_matches(old(mem).ptes@[k]@[idx], c, self.node.page.level));
            assert(old(mem).child_ok(old(fm), c, self.node.page.level, old(mem).node(self.node.page.raw).meta.is_tracked));
        }
        let level = self.node.level();
        let tracked_status = self.node.is_tracked(mem);
        if !(self.pte.is_last(level) && level > 1 && tracked_status == MapTrackingStatus::Untracked) {
            return None;
        }
        let pa = self.pte.paddr();
        let prop = self.pte.prop();
        proof {
            assert(c is Untracked);
            assert(c->Untracked_0 == pa && c->Untracked_2 == prop && c->Untracked_1 == level);
        }
        let ghost mem0 = *mem;
        let new_page = RawPageTableNode::alloc_empty_pt(
            level - 1,
            MapTrackingStatus::Untracked,
            Ghost(mem.node(self.node.page.raw).prefix@ * 512 + self.idx),
            mem,
            fm,
        );
        let ghost mem1 = *mem;
        let ghost nk = frame_of(new_page.raw);
        let new_node = new_page.lock();
        let small = crate::mm::page_size(level - 1);
        proof {
            assert(mem.node_wf(fm, nk));
            crate::mm::lemma_page_size_values();
            assert(page_size_spec(level as int) == 512 * page_size_spec(level - 1)) by {
                reveal_with_fuel(page_size_spec, 2);
            }
            assert(k != nk);
        }
        let mut i: usize = 0;
        while i < 512
            invariant
                0 <= i <= 512,
                fm.wf(),
                mem.wf(fm),
                mem.is_node(new_page.raw, (level - 1) as int),
                new_node.page == new_page,
                nk == frame_of(new_page.raw),
                new_page.level == level - 1,
                2 <= level <= NR_LEVELS,
                small == page_size_spec(level - 1),
                page_size_spec(level as int) == 512 * page_size_spec(level - 1),
                pa + page_size_spec(level as int) <= 0x1_0000_0000_0000_0000int,
                mem.node(new_page.raw).meta.is_tracked == MapTrackingStatus::Untracked,
                mem.node(new_page.raw).meta.paddr == new_page.raw,
                mem.node(new_page.raw).table@.len() == 512,
                mem1.same_except(mem, nk),
                forall|j: int| 0 <= j < i ==> #[trigger] mem.node(new_page.raw).table@[j] == Child::Untracked(
                    (pa + j * small) as Paddr,
                    (level - 1) as PagingLevel,
                    prop,
                ),
                forall|j: int| i <= j < 512 ==> #[trigger] mem.node(new_page.raw).table@[j] is Empty,
            decreases 512 - i,
        {
            proof {
                assert(i * small + small <= page_size_spec(level as int)) by (nonlinear_arith)
                    requires i < 512, page_size_spec(level as int) == 512 * small, small >= 0;
            }
            let small_pa = pa + (i as u64) * small;
            let e = new_node.entry(mem, i);
            let ghost before = *mem;
            let _ = e.replace(mem, fm, Child::Untracked(small_pa, level - 1, prop));
            proof {
                assert(frame_of(e.node.page.raw) == nk);
                assert(before.same_except(mem, nk));
                assert(mem1.same_except(&before, nk));
                assert forall|j: int| 0 <= j < i + 1 implies #[trigger] mem.node(new_page.raw).table@[j] == Child::Untracked(
                    (pa + j * small) as Paddr,
                    (level - 1) as PagingLevel,
                    prop,
                ) by {
                    if j < i {
                        assert(before.node(new_page.raw).table@[j] == mem.node(new_page.raw).table@[j]);
                    }
                }
                assert forall|j: int| i + 1 <= j < 512 implies #[trigger] mem.node(new_page.raw).table@[j] is Empty by {
                    assert(before.node(new_page.raw).table@[j] == mem.node(new_page.raw).table@[j]);
                }
                assert forall|j: int| 0 <= j < mem1.nodes@.len() && j != nk implies #[trigger] mem.nodes@[j] == mem1.nodes@[j] by {
                    assert(before.nodes@[j] == mem1.nodes@[j]);
                }
                assert forall|j: int| 0 <= j < mem1.ptes@.len() && j != nk implies #[trigger] mem.ptes@[j] == mem1.ptes@[j] by {
                    assert(before.ptes@[j] == mem1.ptes@[j]);
                }
            }
            i = i + 1;
        }
        let ghost mem2 = *mem;
        proof {
            assert(mem.is_node(self.node.page.raw, level as int)) by {
                assert(mem.nodes@[k] == mem1.nodes@[k]);
                assert(mem1.nodes@[k] == mem0.nodes@[k]);
            }
            assert(mem.child_ok(fm, Child::PageTable(new_page), level, mem.node(self.node.page.raw).meta.is_tracked));
        }
        let _ = self.replace(mem, fm, Child::PageTable(new_page));
        proof {
            assert(mem2.nodes@[k] == old(mem).nodes@[k]);
            assert forall|j: int| 0 <= j < old(mem).nodes@.len() && j != k && j != nk implies #[trigger] mem.nodes@[j] == old(mem).nodes@[j] by {
                assert(mem2.nodes@[j] == mem1.nodes@[j]);
            }
            assert forall|j: int| 0 <= j < old(mem).ptes@.len() && j != k && j != nk implies #[trigger] mem.ptes@[j] == old(mem).ptes@[j] by {
                assert(mem2.ptes@[j] == mem1.ptes@[j]);
            }
            assert forall|j: int| 0 <= j < old(mem).nodes@.len() && #[trigger] old(mem).nodes@[j] is Some implies {
                &&& mem.nodes@[j] is Some
                &&& (mem.nodes@[j]->Some_0).meta.level == (old(mem).nodes@[j]->Some_0).meta.level
            } by {
                if j != k && j != nk {
                    assert(mem2.nodes@[j] == mem1.nodes@[j]);
                }
            }
            assert forall|ii: int| 0 <= ii < 512 implies #[trigger] mem.node(new_page.raw).table@[ii] == Child::Untracked(
                (c->Untracked_0 + ii * page_size_spec(new_page.level as int)) as Paddr,
                new_page.level,
                c->Untracked_2,
            ) by {
                assert(mem.nodes@[nk] == mem2.nodes@[nk]);
                assert(mem2.node(new_page.raw).table@[ii] == Child::Untracked((pa + ii * small) as Paddr, (level - 1) as PagingLevel, prop));
            }
            assert(mem.node(new_page.raw).meta.is_tracked == MapTrackingStatus::Untracked) by {
                assert(mem.nodes@[nk] == mem2.nodes@[nk]);
            }
        }
        Some(new_node)
    }
}

impl<E: PageTableEntryTrait> PageTableMem<E> {
    /// Reads the PTE at index `idx` of the frame at `pa`.
    pub fn read_pte_at(&self, pa: Paddr, idx: usize) -> (r: E)
        requires
            frame_of(pa) < self.ptes@.len(),
            self.ptes@[frame_of(pa)]@.len() == 512,
            idx < 512,
        ensures
            r == self.pte(pa, idx as int),
    {
        let n = self.ptes.len();
        let k = (pa / PAGE_SIZE) as usize;
        self.ptes[k][idx]
    }
}

impl<E: PageTableEntryTrait> PageTableMem<E> {
    /// The shape that readers of the memory need: every frame holds 512
    /// entries and every node record has 512 children.
    pub open spec fn shape_ok(&self) -> bool {
        &&& self.ptes@.len() == self.nodes@.len()
        &&& forall|k: int| 0 <= k < self.ptes@.len() ==> (#[trigger] self.ptes@[k])@.len() == 512
        &&& forall|k: int| 0 <= k < self.nodes@.len() && #[trigger] self.nodes@[k] is Some ==> (self.nodes@[k]->Some_0).table@.len() == 512
    }

    /// Well-formed memory has the shape that readers need.
    pub proof fn lemma_wf_shape(&self, fm: &FrameManager)
        requires
            self.wf(fm),
        ensures
            self.shape_ok(),
    {
        assert forall|k: int| 0 <= k < self.nodes@.len() && #[trigger] self.nodes@[k] is Some implies (self.nodes@[k]->Some_0).table@.len() == 512 by {
            assert(self.node_wf(fm, k));
        }
    }
}

impl<E: PageTableEntryTrait> PageTableMem<E> {
    /// The node whose entry holds the leaf that `va` resolves to below the
    /// node at `pa` of `level`.
    pub open spec fn leaf_node(&self, pa: Paddr, level: int, va: u64) -> Paddr
        decreases level,
    {
        let child = self.node(pa).table@[pte_index_spec(va, level) as int];
        match child {
            Child::PageTable(raw) => if level > 1 {
                self.leaf_node(raw.raw, level - 1, va)
            } else {
                pa
            },
            _ => pa,
        }
    }
}

impl<E: PageTableEntryTrait> PageTableMem<E> {
    /// Writes `pte` at index `idx` of frame number `f`.
    pub fn write_pte_at(&mut self, f: usize, idx: usize, pte: E)
        requires
            f < old(self).ptes@.len(),
            old(self).ptes@[f as int]@.len() == 512,
            idx < 512,
        ensures
            final(self).nodes == old(self).nodes,
            final(self).ptes@.len() == old(self).ptes@.len(),
            forall|j: int| 0 <= j < old(self).ptes@.len() && j != f ==> #[trigger] final(self).ptes@[j] == old(self).ptes@[j],
            final(self).ptes@[f as int]@ == old(self).ptes@[f as int]@.update(idx as int, pte),
    {
        let mut row: Vec<E> = Vec::new();
        self.ptes.set_and_swap(f, &mut row);
        row.set(idx, pte);
        self.ptes.set_and_swap(f, &mut row);
    }

    /// The memory of `nr_frames` zeroed frames, none of which holds a node.
    pub fn new(nr_frames: usize) -> (r: Self)
        ensures
            r.ptes@.len() == nr_frames,
            r.nodes@.len() == nr_frames,
            forall|k: int| 0 <= k < nr_frames ==> (#[trigger] r.ptes@[k])@.len() == 512,
            forall|k: int| 0 <= k < nr_frames ==> #[trigger] r.nodes@[k] is None,
            forall|k: int, i: int| 0 <= k < nr_frames && 0 <= i < 512 ==> !(#[trigger] r.ptes@[k]@[i]).spec_present(),
            forall|fm: &FrameManager| fm.nr_frames() == nr_frames ==> #[trigger] r.wf(fm),
    {
        let mut ptes: Vec<Vec<E>> = Vec::new();
        let mut nodes: Vec<Option<NodeRecord>> = Vec::new();
        let mut k: usize = 0;
        while k < nr_frames
            invariant
                k <= nr_frames,
                ptes@.len() == k,
                nodes@.len() == k,
                forall|j: int| 0 <= j < k ==> (#[trigger] ptes@[j])@.len() == 512,
                forall|j: int| 0 <= j < k ==> #[trigger] nodes@[j] is None,
                forall|j: int, i: int| 0 <= j < k && 0 <= i < 512 ==> !(#[trigger] ptes@[j]@[i]).spec_present(),
            decreases nr_frames - k,
        {
            let mut row: Vec<E> = Vec::new();
            let mut i: usize = 0;
            while i < 512
                invariant
                    i <= 512,
                    row@.len() == i,
                    forall|j: int| 0 <= j < i ==> !(#[trigger] row@[j]).spec_present(),
                decreases 512 - i,
            {
                row.push(E::new_absent());
                i = i + 1;
            }
            ptes.push(row);
            nodes.push(None);
            k = k + 1;
        }
        PageTableMem { ptes, nodes }
    }

    /// Fills frame number `f` with zeros: every entry absent.
    pub fn zero_frame(&mut self, f: usize)
        requires
            f < old(self).ptes@.len(),
        ensures
            final(self).nodes == old(self).nodes,
            final(self).ptes@.len() == old(self).ptes@.len(),
            forall|j: int| 0 <= j < old(self).ptes@.len() && j != f ==> #[trigger] final(self).ptes@[j] == old(self).ptes@[j],
            final(self).ptes@[f as int]@.len() == 512,
            forall|i: int| 0 <= i < 512 ==> !(#[trigger] final(self).ptes@[f as int]@[i]).spec_present(),
            forall|i: int, l: PagingLevel| 0 <= i < 512 ==> !(#[trigger] final(self).ptes@[f as int]@[i].spec_last(l)),
    {
        let mut row: Vec<E> = Vec::new();
        let mut i: usize = 0;
        while i < 512
            invariant
                i <= 512,
                row@.len() == i,
                forall|j: int| 0 <= j < i ==> !(#[trigger] row@[j]).spec_present(),
                forall|j: int, l: PagingLevel| 0 <= j < i ==> !(#[trigger] row@[j].spec_last(l)),
            decreases 512 - i,
        {
            row.push(E::new_absent());
            i = i + 1;
        }
        self.ptes.set_and_swap(f, &mut row);
    }
}

impl<E: PageTableEntryTrait> PageTableMem<E> {
    /// Reads the PTE at index `idx` of frame number `f`.
    pub fn read_pte_frame(&self, f: usize, idx: usize) -> (r: E)
        requires
            f < self.ptes@.len(),
            self.ptes@[f as int]@.len() == 512,
            idx < 512,
        ensures
            r == self.ptes@[f as int]@[idx as int],
    {
        self.ptes[f][idx]
    }
}

impl<E: PageTableEntryTrait> PageTableMem<E> {
    /// Every node record of `self` is still a node record of the same level
    /// in `new`.
    pub open spec fn nodes_kept(&self, new: &Self) -> bool {
        &&& new.nodes@.len() == self.nodes@.len()
        &&& forall|k: int| 0 <= k < self.nodes@.len() && #[trigger] self.nodes@[k] is Some ==> {
            &&& new.nodes@[k] is Some
            &&& (new.nodes@[k]->Some_0).meta.level == (self.nodes@[k]->Some_0).meta.level
            &&& (new.nodes@[k]->Some_0).prefix == (self.nodes@[k]->Some_0).prefix
        }
    }

    /// Keeping node records is transitive.
    pub proof fn lemma_nodes_kept_trans(&self, b: &Self, c: &Self)
        requires
            self.nodes_kept(b),
            b.nodes_kept(c),
        ensures
            self.nodes_kept(c),
    {
        assert forall|k: int| 0 <= k < self.nodes@.len() && #[trigger] self.nodes@[k] is Some implies {
            &&& c.nodes@[k] is Some
            &&& (c.nodes@[k]->Some_0).meta.level == (self.nodes@[k]->Some_0).meta.level
        } by {
            assert(b.nodes@[k] is Some);
        }
    }

    /// A change at one frame that keeps that frame's record keeps all
    /// records.
    pub proof fn lemma_same_except_kept(&self, new: &Self, k: int)
        requires
            self.same_except(new, k),
        ensures
            self.nodes_kept(new),
    {
        assert forall|j: int| 0 <= j < self.nodes@.len() && #[trigger] self.nodes@[j] is Some implies {
            &&& new.nodes@[j] is Some
            &&& (new.nodes@[j]->Some_0).meta.level == (self.nodes@[j]->Some_0).meta.level
        } by {
            if j != k {
                assert(new.nodes@[j] == self.nodes@[j]);
            }
        }
    }

    /// Node records are kept by a change at two frames.
    pub proof fn lemma_same_except2_kept(&self, new: &Self, k1: int, k2: int)
        requires
            new.same_except2(self, k1, k2),
        ensures
            self.nodes_kept(new),
    {
    }

    /// A node of a level stays one when node records are kept.
    pub proof fn lemma_kept_is_node(&self, new: &Self, pa: Paddr, level: int)
        requires
            self.nodes_kept(new),
            self.is_node(pa, level),
        ensures
            new.is_node(pa, level),
    {
        assert(self.nodes@[frame_of(pa)] is Some);
    }
}

} // verus!
