//! Frame (physical memory page) management.
//!
//! A frame is an aligned, contiguous range of bytes in physical memory.
//! Frames are accessed through frame handles ([`Frame`]), which are
//! reference-counted pointers to the frame's metadata slot. When all handles
//! of a frame are dropped, the frame is released to the frame allocator and
//! can be reused. Contiguous frames are managed by [`Segment`].
//!
//! The metadata slots of all frames form a table ([`FrameManager`]), which
//! also owns the frame allocator that frames return to when released.

use vstd::prelude::*;
use core::marker::PhantomData;

pub mod allocator;
pub mod segment;
pub mod untyped;

use allocator::CountingFrameAllocator;
use crate::mm::{Paddr, PagingLevel, Vaddr, PAGE_SIZE, FRAME_METADATA_BASE_VADDR, FRAME_METADATA_CAP_VADDR};

pub use segment::Segment;

verus! {

/// The kind of memory held by a frame: typed frames hold Rust objects,
/// untyped frames raw bytes.
pub trait MemoryType: Sized {
    /// Whether frames of this kind are typed: unless a kind says otherwise,
    /// it is.
    fn is_typed() -> (r: bool)
        default_ensures
            r,
    {
        true
    }
}

/// The metadata of a frame that holds frame metadata.
#[derive(Debug, Default)]
pub struct MetaPageMeta {}

/// Frames that hold typed Rust objects.
#[derive(Debug)]
pub struct Typed;

impl MemoryType for Typed {}

/// Frames of raw bytes, which may be read and written directly.
#[derive(Debug)]
pub struct Untyped;

impl MemoryType for Untyped {
    fn is_typed() -> (r: bool)
        ensures
            !r,
    {
        false
    }
}

/// Frames whose kind is not known statically.
#[derive(Debug)]
pub struct Unknown;

impl MemoryType for Unknown {
    fn is_typed() -> (r: bool)
        ensures
            r,
    {
        true
    }
}

/// The size of a metadata slot in bytes: a 32-bit reference count.
pub const META_SLOT_SIZE: u64 = 4;

/// The reference count of a frame that is not in use.
pub const REF_COUNT_UNUSED: u32 = 0xffff_ffff;

/// Reference counts from this value up are illegal; reaching it panics to
/// prevent overflow.
pub const REF_COUNT_MAX: u32 = 0x7fff_ffff;

/// The metadata of one physical frame.
///
/// The reference count means:
///  - `REF_COUNT_UNUSED`: the frame is not in use;
///  - `0`: the frame is being constructed or destructed;
///  - `1..REF_COUNT_MAX`: the frame is in use;
///  - `REF_COUNT_MAX..REF_COUNT_UNUSED`: illegal.
#[derive(Clone, Copy, Debug)]
pub struct MetaSlot {
    pub ref_count: u32,
}

/// The number of frames whose metadata fits in the metadata region.
pub open spec fn max_meta_frames() -> nat {
    ((FRAME_METADATA_CAP_VADDR - FRAME_METADATA_BASE_VADDR) / (META_SLOT_SIZE as int)) as nat
}

/// The metadata slot address of the frame at `paddr`, mathematically.
pub open spec fn frame_to_meta_spec(paddr: Paddr) -> int {
    FRAME_METADATA_BASE_VADDR + (paddr / PAGE_SIZE) * META_SLOT_SIZE
}

/// The frame address of the metadata slot at `vaddr`, mathematically.
pub open spec fn meta_to_frame_spec(vaddr: Vaddr) -> int {
    ((vaddr - FRAME_METADATA_BASE_VADDR) / (META_SLOT_SIZE as int)) * PAGE_SIZE
}

/// Converts the physical address of a base frame to the virtual address of
/// its metadata slot.
pub fn frame_to_meta(paddr: Paddr) -> (r: Vaddr)
    requires
        paddr / PAGE_SIZE < max_meta_frames(),
    ensures
        r == frame_to_meta_spec(paddr),
{
    let base = FRAME_METADATA_BASE_VADDR;
    let offset = paddr / PAGE_SIZE;
    base + offset * META_SLOT_SIZE
}

/// Converts the virtual address of a metadata slot to the physical address
/// of its frame.
pub fn meta_to_frame(vaddr: Vaddr) -> (r: Paddr)
    requires
        FRAME_METADATA_BASE_VADDR <= vaddr < FRAME_METADATA_CAP_VADDR,
    ensures
        r == meta_to_frame_spec(vaddr),
{
    let base = FRAME_METADATA_BASE_VADDR;
    let offset = (vaddr - base) / META_SLOT_SIZE;
    offset * PAGE_SIZE
}

/// Converting a page-aligned address to its metadata slot and back gives the
/// address again.
pub proof fn lemma_meta_frame_roundtrip(paddr: Paddr)
    requires
        paddr % PAGE_SIZE == 0,
        paddr / PAGE_SIZE < max_meta_frames(),
    ensures
        FRAME_METADATA_BASE_VADDR <= frame_to_meta_spec(paddr) < FRAME_METADATA_CAP_VADDR,
        meta_to_frame_spec(frame_to_meta_spec(paddr) as Vaddr) == paddr,
{
    let k = paddr / PAGE_SIZE;
    assert((k * 4) / 4 == k) by (nonlinear_arith);
    assert(k * 4096 == paddr) by (nonlinear_arith)
        requires
            k == paddr / 4096,
            paddr % 4096 == 0,
    ;
}

/// The table of frame metadata slots together with the frame allocator that
/// released frames return to.
pub struct FrameManager {
    slots: Vec<MetaSlot>,
    allocator: CountingFrameAllocator,
}

impl FrameManager {
    /// The reference counts of all frames, indexed by frame number.
    pub closed spec fn ref_counts(&self) -> Seq<u32> {
        self.slots@.map_values(|s: MetaSlot| s.ref_count)
    }

    /// The number of frames that have a metadata slot.
    pub open spec fn nr_frames(&self) -> nat {
        self.ref_counts().len()
    }

    /// The reference count of frame number `idx`.
    pub open spec fn ref_count_of(&self, idx: int) -> u32 {
        self.ref_counts()[idx]
    }

    /// The allocator that frames are released to.
    pub closed spec fn allocator_spec(&self) -> CountingFrameAllocator {
        self.allocator
    }

    /// The allocator view is the allocator field.
    proof fn lemma_allocator_field(&self)
        ensures
            self.allocator_spec() == self.allocator,
    {
    }

    /// Changing only the allocator leaves the reference counts.
    proof fn lemma_same_slots(a: &Self, b: &Self)
        requires
            a.slots == b.slots,
        ensures
            a.ref_counts() == b.ref_counts(),
    {
    }

    /// The upper bound (exclusive) of the physical addresses of frames.
    pub open spec fn max_paddr(&self) -> nat {
        self.nr_frames() * PAGE_SIZE as nat
    }

    /// Whether frame number `k` is in use: some handle or mapping holds it.
    pub open spec fn in_use(&self, k: int) -> bool {
        &&& self.ref_count_of(k) != 0
        &&& self.ref_count_of(k) != REF_COUNT_UNUSED
    }

    /// The allocator can hand out `n` more frames one by one: it holds `n`
    /// free frames and its counters have room for them.
    pub open spec fn can_alloc(&self, n: nat) -> bool {
        &&& self.allocator_spec().free_frames().len() >= n
        &&& self.allocator_spec().frame_counters().0 + n <= usize::MAX
        &&& self.allocator_spec().allocated_spec() + n * allocator::PAGE_SIZE_BYTES <= usize::MAX
    }

    /// Whether frame number `f` is free in the allocator.
    pub open spec fn is_free(&self, f: usize) -> bool {
        self.allocator_spec().free_frames().count(f) > 0
    }

    /// The table fits the metadata region, and every frame that the
    /// allocator holds free has a slot, is unused and is free once.
    pub open spec fn wf(&self) -> bool {
        &&& self.nr_frames() <= max_meta_frames()
        &&& self.nr_frames() <= usize::MAX
        &&& self.max_paddr() <= u64::MAX
        &&& forall|f: usize| #[trigger] self.is_free(f) ==> {
            &&& f < self.nr_frames()
            &&& self.ref_count_of(f as int) == REF_COUNT_UNUSED
            &&& self.allocator_spec().free_frames().count(f) == 1
        }
    }

    /// Creates the metadata of `nr_frames` frames, all unused, managed by
    /// `allocator`.
    pub fn new(nr_frames: usize, allocator: CountingFrameAllocator) -> (r: Self)
        requires
            nr_frames <= max_meta_frames(),
            nr_frames * PAGE_SIZE <= u64::MAX,
            forall|f: usize| #[trigger] allocator.free_frames().count(f) > 0 ==> f < nr_frames && allocator.free_frames().count(f) == 1,
        ensures
            r.wf(),
            r.nr_frames() == nr_frames,
            r.allocator_spec() == allocator,
            forall|i: int| 0 <= i < nr_frames ==> r.ref_count_of(i) == REF_COUNT_UNUSED,
    {
        let mut slots: Vec<MetaSlot> = Vec::new();
        let mut i: usize = 0;
        while i < nr_frames
            invariant
                i <= nr_frames,
                slots@.len() == i,
                forall|j: int| 0 <= j < i ==> slots@[j].ref_count == REF_COUNT_UNUSED,
            decreases nr_frames - i,
        {
            slots.push(MetaSlot { ref_count: REF_COUNT_UNUSED });
            i = i + 1;
        }
        FrameManager { slots, allocator }
    }

    /// The frame allocator.
    pub fn allocator(&self) -> (r: &CountingFrameAllocator)
        ensures
            *r == self.allocator_spec(),
    {
        &self.allocator
    }

    /// The physical address bound of frames (`MAX_PADDR`).
    pub fn max_paddr_exec(&self) -> (r: Paddr)
        requires
            self.wf(),
        ensures
            r == self.max_paddr(),
    {
        (self.slots.len() as u64) * PAGE_SIZE
    }
}

/// A smart pointer to a frame: a reference-counted handle to the frame's
/// metadata slot.
#[derive(Debug)]
pub struct Frame<M: MemoryType> {
    ptr: Vaddr,
    _marker: PhantomData<M>,
}

impl<M: MemoryType> Frame<M> {
    /// The physical address of the frame.
    pub closed spec fn paddr(&self) -> Paddr {
        meta_to_frame_spec(self.ptr) as Paddr
    }

    /// The frame number of the frame.
    pub open spec fn index(&self) -> int {
        (self.paddr() / PAGE_SIZE) as int
    }

    /// The handle points to a metadata slot address.
    pub closed spec fn well_placed(&self) -> bool {
        &&& FRAME_METADATA_BASE_VADDR <= self.ptr < FRAME_METADATA_CAP_VADDR
        &&& (self.ptr - FRAME_METADATA_BASE_VADDR) % (META_SLOT_SIZE as int) == 0
    }

    /// The handle points to a metadata slot of `fm`.
    pub closed spec fn slot_ok(&self, fm: &FrameManager) -> bool {
        &&& self.well_placed()
        &&& (self.ptr - FRAME_METADATA_BASE_VADDR) / (META_SLOT_SIZE as int) < fm.nr_frames()
    }

    /// The handle is live: it points to a slot of `fm` whose frame is in use.
    pub open spec fn valid(&self, fm: &FrameManager) -> bool {
        &&& self.slot_ok(fm)
        &&& fm.ref_count_of(self.index()) != 0
        &&& fm.ref_count_of(self.index()) != REF_COUNT_UNUSED
    }

    proof fn lemma_slot_ok_facts(&self, fm: &FrameManager)
        requires
            self.slot_ok(fm),
        ensures
            self.paddr() % PAGE_SIZE == 0,
            self.paddr() / PAGE_SIZE < fm.nr_frames(),
            self.paddr() / PAGE_SIZE == (self.ptr - FRAME_METADATA_BASE_VADDR) / (META_SLOT_SIZE as int),
            self.ptr == frame_to_meta_spec(self.paddr()),
    {
        let k = (self.ptr - FRAME_METADATA_BASE_VADDR) / (META_SLOT_SIZE as int);
        assert(k * 4096 / 4096 == k && (k * 4096) % 4096 == 0) by (nonlinear_arith)
            requires k >= 0;
        assert(k * 4 + FRAME_METADATA_BASE_VADDR == self.ptr) by (nonlinear_arith)
            requires
                k == (self.ptr - FRAME_METADATA_BASE_VADDR) / 4,
                (self.ptr - FRAME_METADATA_BASE_VADDR) % 4 == 0,
                self.ptr >= FRAME_METADATA_BASE_VADDR,
        ;
        assert(k < 0x100_0000_0000int / 4);
    }

    /// Gets a [`Frame`] from an unused page.
    ///
    /// The frame must be page aligned, below `MAX_PADDR`, not in use and not
    /// held free by the allocator; the reference count becomes 1.
    pub fn from_unused(paddr: Paddr, fm: &mut FrameManager) -> (r: Self)
        requires
            old(fm).wf(),
            paddr % PAGE_SIZE == 0,
            paddr < old(fm).max_paddr(),
            old(fm).ref_count_of((paddr / PAGE_SIZE) as int) == REF_COUNT_UNUSED,
            !old(fm).is_free((paddr / PAGE_SIZE) as usize),
        ensures
            final(fm).wf(),
            r.valid(final(fm)),
            r.paddr() == paddr,
            final(fm).allocator_spec() == old(fm).allocator_spec(),
            final(fm).ref_counts() == old(fm).ref_counts().update((paddr / PAGE_SIZE) as int, 1),
    {
        proof {
            let n = old(fm).nr_frames();
            assert(paddr / PAGE_SIZE < n) by (nonlinear_arith)
                requires paddr < n * 4096;
            lemma_meta_frame_roundtrip(paddr);
        }
        let vaddr = frame_to_meta(paddr);
        let nr = fm.slots.len();
        proof {
            let k = paddr / PAGE_SIZE;
            assert((k * 4) / 4 == k) by (nonlinear_arith);
            assert((vaddr - FRAME_METADATA_BASE_VADDR) / (META_SLOT_SIZE as int) == k);
            assert(k < fm.slots@.len());
        }
        let idx = ((vaddr - FRAME_METADATA_BASE_VADDR) / META_SLOT_SIZE) as usize;
        // The slot moves from "unused" to one reference; any other state
        // means the frame is already in use.
        let cur = fm.slots[idx].ref_count;
        if cur != REF_COUNT_UNUSED {
            proof { assert(false); }
        }
        fm.slots.set(idx, MetaSlot { ref_count: 1 });
        let r = Frame { ptr: vaddr, _marker: PhantomData };
        proof {
            assert(fm.ref_counts() =~= old(fm).ref_counts().update(idx as int, 1));
            assert(r.slot_ok(fm)) by {
                assert((vaddr - FRAME_METADATA_BASE_VADDR) % 4 == 0) by (nonlinear_arith)
                    requires vaddr == FRAME_METADATA_BASE_VADDR + (paddr / 4096) * 4;
            }
            r.lemma_slot_ok_facts(fm);
            assert forall|f: usize| #[trigger] fm.is_free(f) implies {
                &&& f < fm.nr_frames()
                &&& fm.ref_count_of(f as int) == REF_COUNT_UNUSED
                &&& fm.allocator_spec().free_frames().count(f) == 1
            } by {
                assert(old(fm).is_free(f));
            }
        }
        r
    }

    /// Gets the start physical address of the frame.
    pub fn start_paddr(&self) -> (r: Paddr)
        requires
            self.well_placed(),
        ensures
            r == self.paddr(),
    {
        meta_to_frame(self.ptr)
    }

    /// Gets the paging level of this page: always 1, a base page.
    pub fn level(&self) -> (r: PagingLevel)
        ensures
            r == 1,
    {
        1
    }

    /// Gets the size of this page in bytes.
    pub fn size(&self) -> (r: u64)
        ensures
            r == PAGE_SIZE,
    {
        PAGE_SIZE
    }

    /// A handle made from an in-range page-aligned address points to a
    /// slot of `fm`.
    pub proof fn lemma_slot_ok_from_paddr(&self, fm: &FrameManager)
        requires
            self.well_placed(),
            self.paddr() < fm.max_paddr(),
        ensures
            self.slot_ok(fm),
    {
        let k = (self.ptr - FRAME_METADATA_BASE_VADDR) / (META_SLOT_SIZE as int);
        let n = fm.nr_frames();
        assert(k < n) by (nonlinear_arith)
            requires k * 4096 < n * 4096, k >= 0;
    }

    /// Whether a handle points to a slot depends only on the number of slots.
    pub proof fn lemma_slot_ok_same_frames(&self, fm1: &FrameManager, fm2: &FrameManager)
        requires
            self.slot_ok(fm1),
            fm1.nr_frames() == fm2.nr_frames(),
        ensures
            self.slot_ok(fm2),
    {
    }

    /// A handle that points to a slot is well placed, its address is page
    /// aligned and its frame number is below the number of slots.
    pub proof fn lemma_slot_ok_bounds(&self, fm: &FrameManager)
        requires
            self.slot_ok(fm),
        ensures
            self.well_placed(),
            self.paddr() % PAGE_SIZE == 0,
            self.index() < fm.nr_frames(),
    {
        self.lemma_slot_ok_facts(fm);
    }

    /// The address of a well-placed handle is page aligned and below the
    /// metadata region's capacity.
    pub proof fn lemma_well_placed_bounds(&self)
        requires
            self.well_placed(),
        ensures
            self.paddr() % PAGE_SIZE == 0,
            self.paddr() / PAGE_SIZE < max_meta_frames(),
            self.paddr() + PAGE_SIZE <= u64::MAX,
    {
        let k = (self.ptr - FRAME_METADATA_BASE_VADDR) / (META_SLOT_SIZE as int);
        assert(k * 4096 / 4096 == k && (k * 4096) % 4096 == 0) by (nonlinear_arith)
            requires k >= 0;
    }

    /// The index of the handle's slot in the metadata table.
    fn slot_index(&self, fm: &FrameManager) -> (r: usize)
        requires
            self.slot_ok(fm),
        ensures
            r == self.index(),
            r < fm.nr_frames(),
    {
        let nr = fm.slots.len();
        proof { self.lemma_slot_ok_facts(fm); }
        ((self.ptr - FRAME_METADATA_BASE_VADDR) / META_SLOT_SIZE) as usize
    }

    /// Gets the reference count of the frame: all frame handles and all
    /// mappings in page tables that point to the frame.
    pub fn reference_count(&self, fm: &FrameManager) -> (r: u32)
        requires
            self.slot_ok(fm),
        ensures
            r == fm.ref_count_of(self.index()),
    {
        let idx = self.slot_index(fm);
        fm.slots[idx].ref_count
    }

    /// Forgets the handle; the reference count stays. Returns the physical
    /// address, which [`Frame::from_raw`] restores the handle from.
    pub fn into_raw(self) -> (r: Paddr)
        requires
            self.well_placed(),
        ensures
            r == self.paddr(),
    {
        self.start_paddr()
    }

    /// Restores a forgotten handle from its physical address.
    pub fn from_raw(paddr: Paddr) -> (r: Self)
        requires
            paddr % PAGE_SIZE == 0,
            paddr / PAGE_SIZE < max_meta_frames(),
        ensures
            r.well_placed(),
            r.paddr() == paddr,
    {
        proof { lemma_meta_frame_roundtrip(paddr); }
        let vaddr = frame_to_meta(paddr);
        proof {
            assert((vaddr - FRAME_METADATA_BASE_VADDR) % 4 == 0) by (nonlinear_arith)
                requires vaddr == FRAME_METADATA_BASE_VADDR + (paddr / 4096) * 4;
        }
        Frame { ptr: vaddr, _marker: PhantomData }
    }

    /// Two handles are equal as values exactly when they point to the same
    /// frame.
    pub proof fn lemma_same_paddr_same_handle(a: Self, b: Self)
        requires
            a.well_placed(),
            b.well_placed(),
            a.paddr() == b.paddr(),
        ensures
            a == b,
    {
        let ka = (a.ptr - FRAME_METADATA_BASE_VADDR) / 4;
        let kb = (b.ptr - FRAME_METADATA_BASE_VADDR) / 4;
        assert(ka * 4096 == kb * 4096 ==> ka == kb) by (nonlinear_arith);
        assert(a.ptr == FRAME_METADATA_BASE_VADDR + ka * 4) by (nonlinear_arith)
            requires ka == (a.ptr - FRAME_METADATA_BASE_VADDR) / 4, (a.ptr - FRAME_METADATA_BASE_VADDR) % 4 == 0, a.ptr >= FRAME_METADATA_BASE_VADDR;
        assert(b.ptr == FRAME_METADATA_BASE_VADDR + kb * 4) by (nonlinear_arith)
            requires kb == (b.ptr - FRAME_METADATA_BASE_VADDR) / 4, (b.ptr - FRAME_METADATA_BASE_VADDR) % 4 == 0, b.ptr >= FRAME_METADATA_BASE_VADDR;
    }

    /// Creates another handle of the frame, incrementing the reference count.
    ///
    /// Panics (excluded here) when the count reaches `REF_COUNT_MAX`.
    pub fn clone(&self, fm: &mut FrameManager) -> (r: Self)
        requires
            old(fm).wf(),
            self.valid(old(fm)),
            old(fm).ref_count_of(self.index()) < REF_COUNT_MAX,
        ensures
            final(fm).wf(),
            r == *self,
            final(fm).allocator_spec() == old(fm).allocator_spec(),
            final(fm).ref_counts() == old(fm).ref_counts().update(self.index(), (old(fm).ref_count_of(self.index()) + 1) as u32),
    {
        let idx = self.slot_index(fm);
        meta_inc_ref_count(fm, idx);
        Frame { ptr: self.ptr, _marker: PhantomData }
    }

    /// Drops the handle, decrementing the reference count; the last handle
    /// marks the frame unused and returns it to the frame allocator.
    pub fn drop(self, fm: &mut FrameManager)
        requires
            old(fm).wf(),
            self.valid(old(fm)),
            old(fm).ref_count_of(self.index()) == 1 ==> old(fm).can_release_frame(),
        ensures
            final(fm).wf(),
            old(fm).ref_count_of(self.index()) > 1 ==> {
                &&& final(fm).ref_counts() == old(fm).ref_counts().update(self.index(), (old(fm).ref_count_of(self.index()) - 1) as u32)
                &&& final(fm).allocator_spec() == old(fm).allocator_spec()
            },
            old(fm).ref_count_of(self.index()) == 1 ==> final(fm).released(*old(fm), self.index() as usize),
    {
        let idx = self.slot_index(fm);
        let last_ref_cnt = fm.slots[idx].ref_count;
        fm.slots.set(idx, MetaSlot { ref_count: last_ref_cnt - 1 });
        proof {
            assert(fm.ref_counts() =~= old(fm).ref_counts().update(idx as int, (last_ref_cnt - 1) as u32));
            assert forall|f: usize| #[trigger] fm.is_free(f) implies {
                &&& f < fm.nr_frames()
                &&& fm.ref_count_of(f as int) == REF_COUNT_UNUSED
                &&& fm.allocator_spec().free_frames().count(f) == 1
            } by {
                assert(old(fm).is_free(f));
            }
        }
        if last_ref_cnt == 1 {
            // This was the last handle; release the frame.
            let ghost mid = *fm;
            drop_last_in_place(fm, idx);
            proof {
                assert(fm.ref_counts() =~= old(fm).ref_counts().update(idx as int, REF_COUNT_UNUSED)) by {
                    assert(fm.ref_counts() =~= mid.ref_counts().update(idx as int, REF_COUNT_UNUSED));
                }
            }
        }
    }
}

impl FrameManager {
    /// Releasing a frame to the allocator does not underflow its counters.
    pub open spec fn can_release_frame(&self) -> bool {
        &&& self.allocator_spec().allocated_spec() >= allocator::PAGE_SIZE_BYTES
        &&& self.allocator_spec().frame_counters().0 >= 1
    }

    /// `self` is `old` after frame `idx` was marked unused and returned to
    /// the allocator as a free frame.
    pub open spec fn released(&self, old: FrameManager, idx: usize) -> bool {
        &&& self.ref_counts() == old.ref_counts().update(idx as int, REF_COUNT_UNUSED)
        &&& forall|f: usize| #[trigger] self.allocator_spec().free_frames().count(f)
            == old.allocator_spec().free_frames().count(f) + (if f == idx { 1nat } else { 0nat })
        &&& self.allocator_spec().allocated_spec() == old.allocator_spec().allocated_spec() - allocator::PAGE_SIZE_BYTES
        &&& self.allocator_spec().total_spec() == old.allocator_spec().total_spec()
        &&& self.allocator_spec().frame_counters() == ((old.allocator_spec().frame_counters().0 - 1) as nat, old.allocator_spec().frame_counters().1)
    }
}

/// Increments the reference count of slot `idx`.
///
/// The caller must already hold a reference of the frame; reaching
/// `REF_COUNT_MAX` panics (excluded here).
fn meta_inc_ref_count(fm: &mut FrameManager, idx: usize)
    requires
        old(fm).wf(),
        idx < old(fm).nr_frames(),
        old(fm).ref_count_of(idx as int) != 0,
        old(fm).ref_count_of(idx as int) < REF_COUNT_MAX,
    ensures
        final(fm).wf(),
        final(fm).allocator_spec() == old(fm).allocator_spec(),
        final(fm).ref_counts() == old(fm).ref_counts().update(idx as int, (old(fm).ref_count_of(idx as int) + 1) as u32),
{
    let last_ref_cnt = fm.slots[idx].ref_count;
    if last_ref_cnt >= REF_COUNT_MAX {
        proof { assert(false); }
    }
    fm.slots.set(idx, MetaSlot { ref_count: last_ref_cnt + 1 });
    proof {
        assert(fm.ref_counts() =~= old(fm).ref_counts().update(idx as int, (last_ref_cnt + 1) as u32));
        assert forall|f: usize| #[trigger] fm.is_free(f) implies {
            &&& f < fm.nr_frames()
            &&& fm.ref_count_of(f as int) == REF_COUNT_UNUSED
            &&& fm.allocator_spec().free_frames().count(f) == 1
        } by {
            assert(old(fm).is_free(f));
        }
    }
}

/// The last handle of frame `idx` is gone (its count is 0): marks the frame
/// unused and returns it to the allocator.
fn drop_last_in_place(fm: &mut FrameManager, idx: usize)
    requires
        old(fm).wf(),
        idx < old(fm).nr_frames(),
        old(fm).ref_count_of(idx as int) == 0,
        old(fm).can_release_frame(),
    ensures
        final(fm).wf(),
        final(fm).released(*old(fm), idx),
{
    fm.slots.set(idx, MetaSlot { ref_count: REF_COUNT_UNUSED });
    proof {
        assert(!old(fm).is_free(idx));
        reveal_with_fuel(allocator::next_power_of_two_spec, 2);
    }
    fm.allocator.dealloc(idx, 1);
    proof {
        assert(fm.ref_counts() =~= old(fm).ref_counts().update(idx as int, REF_COUNT_UNUSED));
        assert forall|f: usize| #[trigger] fm.is_free(f) implies {
            &&& f < fm.nr_frames()
            &&& fm.ref_count_of(f as int) == REF_COUNT_UNUSED
            &&& fm.allocator_spec().free_frames().count(f) == 1
        } by {
            if f != idx {
                assert(old(fm).is_free(f));
            }
        }
    }
}

/// Increments the reference count of the frame at `paddr`.
///
/// The caller must already hold a reference of the frame.
pub fn inc_frame_ref_count(paddr: Paddr, fm: &mut FrameManager)
    requires
        old(fm).wf(),
        paddr % PAGE_SIZE == 0,
        paddr < old(fm).max_paddr(),
        old(fm).ref_count_of((paddr / PAGE_SIZE) as int) != 0,
        old(fm).ref_count_of((paddr / PAGE_SIZE) as int) < REF_COUNT_MAX,
    ensures
        final(fm).wf(),
        final(fm).allocator_spec() == old(fm).allocator_spec(),
        final(fm).ref_counts() == old(fm).ref_counts().update(
            (paddr / PAGE_SIZE) as int,
            (old(fm).ref_count_of((paddr / PAGE_SIZE) as int) + 1) as u32,
        ),
{
    proof {
        let n = old(fm).nr_frames();
        assert(paddr / PAGE_SIZE < n) by (nonlinear_arith)
            requires paddr < n * 4096;
        lemma_meta_frame_roundtrip(paddr);
    }
    let vaddr = frame_to_meta(paddr);
    let nr = fm.slots.len();
    proof {
        let k = paddr / PAGE_SIZE;
        assert((k * 4) / 4 == k) by (nonlinear_arith);
    }
    let idx = ((vaddr - FRAME_METADATA_BASE_VADDR) / META_SLOT_SIZE) as usize;
    meta_inc_ref_count(fm, idx);
}

/// Cloning a handle and dropping the clone leaves the reference counts as
/// they were (the count stays above 1 in between, so the frame is not
/// released).
pub proof fn lemma_clone_then_drop_restores(counts: Seq<u32>, idx: int)
    requires
        0 <= idx < counts.len(),
        1 <= counts[idx] < REF_COUNT_MAX,
    ensures
        ({
            let cloned = counts.update(idx, (counts[idx] + 1) as u32);
            &&& cloned[idx] > 1
            &&& cloned.update(idx, (cloned[idx] - 1) as u32) == counts
        }),
{
    let cloned = counts.update(idx, (counts[idx] + 1) as u32);
    assert(cloned.update(idx, (cloned[idx] - 1) as u32) =~= counts);
}

} // verus!
