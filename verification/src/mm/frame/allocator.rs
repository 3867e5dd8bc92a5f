//! The physical memory allocator.

use vstd::prelude::*;
use vstd::multiset::Multiset;
use buddy_system_allocator::FrameAllocator;

use super::{Frame, FrameManager, Untyped, REF_COUNT_UNUSED};
use super::segment::{Segment, set_frames};
use crate::mm::io::{fill_pattern, VirtMem};
use crate::mm::{align_down, align_up, Paddr, LINEAR_MAPPING_BASE_VADDR, PAGE_SIZE};
use crate::Error;

verus! {

#[verifier::external_type_specification]
#[verifier::external_body]
pub struct ExFrameAllocator<const ORDER: usize>(FrameAllocator<ORDER>);

/// The multiset of free frame numbers held by a buddy frame allocator: each
/// frame of each free block counts once.
pub uninterp spec fn buddy_free_frames(a: FrameAllocator<32>) -> Multiset<usize>;

/// The statistics counters of a buddy frame allocator: the number of
/// allocated frames and the total number of frames added.
pub uninterp spec fn buddy_counters(a: FrameAllocator<32>) -> (nat, nat);

/// The number of frames of the largest free block of a buddy frame
/// allocator (a block of its largest non-empty size class), 0 when it holds
/// none.
pub uninterp spec fn buddy_largest_free_block(a: FrameAllocator<32>) -> nat;

/// The smallest power of two that is at least `count` (1 for 0).
pub open spec fn next_power_of_two_spec(count: nat) -> nat
    decreases count,
{
    if count <= 1 {
        1
    } else {
        2 * next_power_of_two_spec(((count + 1) / 2) as nat)
    }
}

/// Whether frame `f` lies in the block of `size` frames starting at `start`.
pub open spec fn in_block(f: usize, start: int, size: int) -> bool {
    start <= f < start + size
}

/// `FrameAllocator::new`: an allocator with no frame.
#[verifier::external_body]
fn buddy_new() -> (r: FrameAllocator<32>)
    ensures
        buddy_free_frames(r) =~= Multiset::empty(),
        buddy_counters(r) == (0nat, 0nat),
{
    FrameAllocator::<32>::new()
}

/// `FrameAllocator::add_frame`: adds the frames `[start, end)` as free
/// blocks. The source asserts `start <= end` and adds `end - start` to its
/// total counter.
#[verifier::external_body]
fn buddy_add_frame(a: &mut FrameAllocator<32>, start: usize, end: usize)
    requires
        start <= end,
        buddy_counters(*old(a)).1 + (end - start) <= usize::MAX,
        forall|f: usize| in_block(f, start as int, end - start) ==> buddy_free_frames(*old(a)).count(f) == 0,
    ensures
        forall|f: usize|
            #[trigger] buddy_free_frames(*final(a)).count(f) == buddy_free_frames(*old(a)).count(f) + (
            if in_block(f, start as int, end - start) {
                1nat
            } else {
                0nat
            }),
        buddy_counters(*final(a)) == (buddy_counters(*old(a)).0, (buddy_counters(*old(a)).1 + (end - start)) as nat),
{
    a.add_frame(start, end)
}

/// `FrameAllocator::alloc`: allocates a block of `next_power_of_two(count)`
/// frames aligned to its size. The source either takes such a free block
/// (splitting a larger one) or, when no free block is large enough, returns
/// `None` and changes nothing.
#[verifier::external_body]
fn buddy_alloc(a: &mut FrameAllocator<32>, count: usize) -> (r: Option<usize>)
    requires
        count <= 0x8000_0000_0000_0000,
        buddy_counters(*old(a)).0 + next_power_of_two_spec(count as nat) <= usize::MAX,
    ensures
        ({
            let size = next_power_of_two_spec(count as nat) as int;
            match r {
                Some(s) => {
                    &&& s as int % size == 0
                    &&& s + size <= usize::MAX + 1
                    &&& forall|f: usize| in_block(f, s as int, size) ==> buddy_free_frames(*old(a)).count(f) >= 1
                    &&& forall|f: usize|
                        #[trigger] buddy_free_frames(*final(a)).count(f) == buddy_free_frames(*old(a)).count(f) - (
                        if in_block(f, s as int, size) {
                            1int
                        } else {
                            0int
                        })
                    &&& buddy_counters(*final(a)) == (buddy_counters(*old(a)).0 + size as nat, buddy_counters(*old(a)).1)
                },
                None => {
                    &&& *final(a) == *old(a)
                    &&& count <= 1 ==> forall|f: usize| buddy_free_frames(*old(a)).count(f) == 0
                },
            }
        }),
        r is None <==> buddy_largest_free_block(*old(a)) < next_power_of_two_spec(count as nat),
{
    a.alloc(count)
}

/// `FrameAllocator::dealloc`: returns the block of
/// `next_power_of_two(count)` frames starting at `start` (merging buddies).
/// The block must be aligned to its size and must not be free already, and
/// its size class must be one of the 32 lists (a block of at most 2^31
/// frames): a larger one indexes past them and panics.
#[verifier::external_body]
fn buddy_dealloc(a: &mut FrameAllocator<32>, start: usize, count: usize)
    requires
        next_power_of_two_spec(count as nat) <= 0x8000_0000,
        start as int % next_power_of_two_spec(count as nat) as int == 0,
        buddy_counters(*old(a)).0 >= next_power_of_two_spec(count as nat),
        forall|f: usize|
            in_block(f, start as int, next_power_of_two_spec(count as nat) as int) ==> buddy_free_frames(*old(a)).count(f) == 0,
    ensures
        forall|f: usize|
            #[trigger] buddy_free_frames(*final(a)).count(f) == buddy_free_frames(*old(a)).count(f) + (
            if in_block(f, start as int, next_power_of_two_spec(count as nat) as int) {
                1nat
            } else {
                0nat
            }),
        buddy_counters(*final(a)) == (
            (buddy_counters(*old(a)).0 - next_power_of_two_spec(count as nat)) as nat,
            buddy_counters(*old(a)).1,
        ),
{
    a.dealloc(start, count)
}


/// The linear mapping of the `nr_frames` frames of physical memory is
/// accessible in `mem`: kernel memory does not fault.
pub open spec fn linear_mapping_present(mem: VirtMem, nr_frames: nat) -> bool {
    &&& mem.present(LINEAR_MAPPING_BASE_VADDR as int, nr_frames * PAGE_SIZE)
    &&& LINEAR_MAPPING_BASE_VADDR + nr_frames * PAGE_SIZE <= u64::MAX + 1
}

/// Options for allocating physical memory frames.
pub struct FrameAllocOptions {
    pub zeroed: bool,
}

impl FrameAllocOptions {
    /// Creates new options; frames are zero-initialized by default.
    pub fn new() -> (r: Self)
        ensures
            r.zeroed,
    {
        Self { zeroed: true }
    }

    /// Sets whether the allocated frames should be initialized with zeros.
    pub fn zeroed(&mut self, zeroed: bool) -> (r: &mut Self)
        ensures
            r.zeroed == zeroed,
            *final(self) == *final(r),
    {
        self.zeroed = zeroed;
        self
    }

    /// Allocates one untyped frame, whose reference count becomes 1; when
    /// the options say so, its bytes, seen through the linear mapping in
    /// `mem`, are set to zero.
    ///
    /// Fails with `NoMemory` exactly when the allocator holds no free frame.
    pub fn alloc_frame(&self, fm: &mut FrameManager, mem: &mut VirtMem) -> (r: Result<Frame<Untyped>, Error>)
        requires
            old(fm).wf(),
            old(fm).allocator_spec().frame_counters().0 + 1 <= usize::MAX,
            old(fm).allocator_spec().allocated_spec() + PAGE_SIZE_BYTES <= usize::MAX,
            self.zeroed ==> linear_mapping_present(*old(mem), old(fm).nr_frames()),
        ensures
            final(fm).wf(),
            match r {
                Ok(frame) => {
                    let idx = frame.index();
                    &&& frame.valid(final(fm))
                    &&& old(fm).is_free(idx as usize)
                    &&& !final(fm).is_free(idx as usize)
                    &&& final(fm).ref_counts() == old(fm).ref_counts().update(idx, 1)
                    &&& final(fm).allocator_spec().allocated_spec() == old(fm).allocator_spec().allocated_spec() + PAGE_SIZE_BYTES
                    &&& final(fm).allocator_spec().free_frames() == old(fm).allocator_spec().free_frames().remove(idx as usize)
                    &&& final(fm).allocator_spec().frame_counters().0 == old(fm).allocator_spec().frame_counters().0 + 1
                    &&& final(fm).allocator_spec().total_spec() == old(fm).allocator_spec().total_spec()
                    &&& self.zeroed ==> old(mem).filled_into(*final(mem), LINEAR_MAPPING_BASE_VADDR + frame.paddr(), PAGE_SIZE as int, seq![0u8])
                    &&& !self.zeroed ==> *final(mem) == *old(mem)
                },
                Err(e) => {
                    &&& e == Error::NoMemory
                    &&& *final(fm) == *old(fm)
                    &&& *final(mem) == *old(mem)
                    &&& forall|f: usize| !old(fm).is_free(f)
                },
            },
    {
        let res = self.take_frame(fm);
        match res {
            Ok(frame) => {
                if self.zeroed {
                    let pa = frame.start_paddr();
                    proof {
                        assert(pa + 4096 <= fm.nr_frames() * 4096) by (nonlinear_arith)
                            requires pa == frame.index() * 4096, frame.index() < fm.nr_frames();
                    }
                    let zero = vec![0u8];
                    fill_pattern(mem, LINEAR_MAPPING_BASE_VADDR + pa, PAGE_SIZE, zero.as_slice());
                }
                Ok(frame)
            },
            Err(e) => Err(e),
        }
    }

    /// Takes one free frame from the allocator as an untyped frame, whose
    /// reference count becomes 1, without touching its bytes: for frames
    /// whose contents the caller models and sets itself, such as page-table
    /// nodes.
    ///
    /// Fails with `NoMemory` exactly when the allocator holds no free frame.
    pub(crate) fn take_frame(&self, fm: &mut FrameManager) -> (r: Result<Frame<Untyped>, Error>)
        requires
            old(fm).wf(),
            old(fm).allocator_spec().frame_counters().0 + 1 <= usize::MAX,
            old(fm).allocator_spec().allocated_spec() + PAGE_SIZE_BYTES <= usize::MAX,
        ensures
            final(fm).wf(),
            match r {
                Ok(frame) => {
                    let idx = frame.index();
                    &&& frame.valid(final(fm))
                    &&& old(fm).is_free(idx as usize)
                    &&& !final(fm).is_free(idx as usize)
                    &&& final(fm).ref_counts() == old(fm).ref_counts().update(idx, 1)
                    &&& forall|f: usize| f != idx ==> #[trigger] final(fm).allocator_spec().free_frames().count(f)
                        == old(fm).allocator_spec().free_frames().count(f)
                    &&& final(fm).allocator_spec().allocated_spec() == old(fm).allocator_spec().allocated_spec() + PAGE_SIZE_BYTES
                    &&& final(fm).allocator_spec().free_frames() == old(fm).allocator_spec().free_frames().remove(idx as usize)
                    &&& final(fm).allocator_spec().frame_counters().0 == old(fm).allocator_spec().frame_counters().0 + 1
                    &&& final(fm).allocator_spec().total_spec() == old(fm).allocator_spec().total_spec()
                },
                Err(e) => {
                    &&& e == Error::NoMemory
                    &&& *final(fm) == *old(fm)
                    &&& forall|f: usize| !old(fm).is_free(f)
                },
            },
    {
        proof { reveal_with_fuel(next_power_of_two_spec, 2); }
        proof { old(fm).lemma_allocator_field(); }
        let res = fm.allocator.alloc_frames(1);
        proof { fm.lemma_allocator_field(); FrameManager::lemma_same_slots(fm, old(fm)); }
        match res {
            Some(idx) => {
                proof {
                    assert(in_block(idx, idx as int, 1));
                    assert(old(fm).is_free(idx));
                    assert(forall|f: usize| #[trigger] fm.is_free(f) ==> old(fm).is_free(f));
                    assert(idx * 4096 < fm.nr_frames() * 4096) by (nonlinear_arith)
                        requires idx < fm.nr_frames();
                }
                let paddr = (idx as u64) * PAGE_SIZE;
                proof {
                    assert(paddr % 4096 == 0 && paddr / 4096 == idx) by (nonlinear_arith)
                        requires paddr == idx * 4096;
                }
                let frame = Frame::<Untyped>::from_unused(paddr, fm);
                proof {
                    broadcast use vstd::multiset::group_multiset_axioms;
                    assert(fm.allocator_spec().free_frames() =~= old(fm).allocator_spec().free_frames().remove(idx));
                }
                Ok(frame)
            },
            None => Err(Error::NoMemory),
        }
    }

    /// Allocates `nframes` contiguous untyped frames as a segment, each with
    /// a reference count of 1; when the options say so, their bytes, seen
    /// through the linear mapping in `mem`, are set to zero.
    ///
    /// Fails with `InvalidArgs` when `nframes` is zero and with `NoMemory`
    /// when the allocator has no free block that large.
    pub fn alloc_segment(&self, nframes: usize, fm: &mut FrameManager, mem: &mut VirtMem) -> (r: Result<Segment<Untyped>, Error>)
        requires
            old(fm).wf(),
            nframes <= 0x8000_0000_0000_0000,
            old(fm).allocator_spec().frame_counters().0 + next_power_of_two_spec(nframes as nat) <= usize::MAX,
            old(fm).allocator_spec().allocated_spec() + nframes * PAGE_SIZE_BYTES <= usize::MAX,
            self.zeroed ==> linear_mapping_present(*old(mem), old(fm).nr_frames()),
        ensures
            final(fm).wf(),
            nframes == 0 ==> r == Err::<Segment<Untyped>, Error>(Error::InvalidArgs) && *final(fm) == *old(fm),
            match r {
                Ok(seg) => {
                    &&& seg.valid(final(fm))
                    &&& seg.end() - seg.start() == nframes * PAGE_SIZE
                    &&& forall|f: usize| seg.first_frame() <= f < seg.end_frame() ==> old(fm).is_free(f)
                    &&& final(fm).ref_counts() == set_frames(old(fm).ref_counts(), seg.first_frame(), seg.end_frame(), 1)
                    &&& final(fm).allocator_spec().allocated_spec() == old(fm).allocator_spec().allocated_spec() + nframes * PAGE_SIZE_BYTES
                    &&& self.zeroed ==> old(mem).filled_into(*final(mem), LINEAR_MAPPING_BASE_VADDR + seg.start(), nframes * PAGE_SIZE, seq![0u8])
                    &&& !self.zeroed ==> *final(mem) == *old(mem)
                },
                Err(e) => {
                    &&& (e == Error::InvalidArgs || e == Error::NoMemory)
                    &&& *final(fm) == *old(fm)
                    &&& *final(mem) == *old(mem)
                    &&& e == Error::NoMemory ==> nframes > 0
                    &&& e == Error::NoMemory && nframes == 1 ==> forall|f: usize| !old(fm).is_free(f)
                },
            },
            (r == Err::<Segment<Untyped>, Error>(Error::NoMemory))
                <==> (nframes > 0 && old(fm).allocator_spec().largest_free_block() < next_power_of_two_spec(nframes as nat)),
    {
        let res = self.take_segment(nframes, fm);
        match res {
            Ok(seg) => {
                if self.zeroed {
                    let lo = seg.start_paddr();
                    let len = seg.size();
                    proof {
                        assert(seg.end() <= fm.nr_frames() * 4096);
                    }
                    let zero = vec![0u8];
                    fill_pattern(mem, LINEAR_MAPPING_BASE_VADDR + lo, len, zero.as_slice());
                }
                Ok(seg)
            },
            Err(e) => Err(e),
        }
    }

    /// Takes `nframes` contiguous free frames from the allocator as an
    /// untyped segment without touching their bytes.
    fn take_segment(&self, nframes: usize, fm: &mut FrameManager) -> (r: Result<Segment<Untyped>, Error>)
        requires
            old(fm).wf(),
            nframes <= 0x8000_0000_0000_0000,
            old(fm).allocator_spec().frame_counters().0 + next_power_of_two_spec(nframes as nat) <= usize::MAX,
            old(fm).allocator_spec().allocated_spec() + nframes * PAGE_SIZE_BYTES <= usize::MAX,
        ensures
            final(fm).wf(),
            nframes == 0 ==> r == Err::<Segment<Untyped>, Error>(Error::InvalidArgs) && *final(fm) == *old(fm),
            match r {
                Ok(seg) => {
                    &&& seg.valid(final(fm))
                    &&& seg.end() - seg.start() == nframes * PAGE_SIZE
                    &&& forall|f: usize| seg.first_frame() <= f < seg.end_frame() ==> old(fm).is_free(f)
                    &&& final(fm).ref_counts() == set_frames(old(fm).ref_counts(), seg.first_frame(), seg.end_frame(), 1)
                    &&& final(fm).allocator_spec().allocated_spec() == old(fm).allocator_spec().allocated_spec() + nframes * PAGE_SIZE_BYTES
                },
                Err(e) => {
                    &&& (e == Error::InvalidArgs || e == Error::NoMemory)
                    &&& *final(fm) == *old(fm)
                    &&& e == Error::NoMemory ==> nframes > 0
                    &&& e == Error::NoMemory && nframes == 1 ==> forall|f: usize| !old(fm).is_free(f)
                },
            },
            (r == Err::<Segment<Untyped>, Error>(Error::NoMemory))
                <==> (nframes > 0 && old(fm).allocator_spec().largest_free_block() < next_power_of_two_spec(nframes as nat)),
    {
        if nframes == 0 {
            return Err(Error::InvalidArgs);
        }
        proof { old(fm).lemma_allocator_field(); }
        let res = fm.allocator.alloc_frames(nframes);
        proof { fm.lemma_allocator_field(); FrameManager::lemma_same_slots(fm, old(fm)); }
        match res {
            Some(start) => {
                proof {
                    lemma_next_power_of_two_ge(nframes as nat);
                    assert forall|f: usize| in_block(f, start as int, nframes as int) implies {
                        &&& old(fm).is_free(f)
                        &&& f < fm.nr_frames()
                        &&& fm.ref_count_of(f as int) == REF_COUNT_UNUSED
                        &&& !fm.is_free(f)
                    } by {
                        assert(in_block(f, start as int, next_power_of_two_spec(nframes as nat) as int));
                        assert(old(fm).allocator_spec().free_frames().count(f) >= 1);
                        assert(fm.allocator_spec().free_frames().count(f) == old(fm).allocator_spec().free_frames().count(f) - 1);
                        assert(old(fm).is_free(f));
                        assert(f < fm.nr_frames());
                        assert(fm.ref_count_of(f as int) == REF_COUNT_UNUSED);
                        assert(!fm.is_free(f));
                    }
                    assert(start + nframes - 1 < fm.nr_frames()) by {
                        let last = (start + nframes - 1) as usize;
                        assert(in_block(last, start as int, nframes as int));
                        assert(old(fm).is_free(last));
                    }
                    assert(forall|f: usize| #[trigger] fm.is_free(f) ==> old(fm).is_free(f));
                    assert((start + nframes) * 4096 <= fm.nr_frames() * 4096) by (nonlinear_arith)
                        requires start + nframes <= fm.nr_frames();
                }
                let lo = (start as u64) * PAGE_SIZE;
                let hi = ((start + nframes) as u64) * PAGE_SIZE;
                proof {
                    assert(lo % 4096 == 0 && lo / 4096 == start) by (nonlinear_arith)
                        requires lo == start * 4096;
                    assert(hi % 4096 == 0 && hi / 4096 == start + nframes) by (nonlinear_arith)
                        requires hi == (start + nframes) * 4096;
                    assert(hi - lo == nframes * 4096) by (nonlinear_arith)
                        requires hi == (start + nframes) * 4096, lo == start * 4096;
                    assert forall|i: int| (lo / PAGE_SIZE) as int <= i < (hi / PAGE_SIZE) as int implies {
                        &&& #[trigger] fm.ref_count_of(i) == REF_COUNT_UNUSED
                        &&& !fm.is_free(i as usize)
                    } by {
                        assert(in_block(i as usize, start as int, nframes as int));
                    }
                }
                let seg = Segment::<Untyped>::from_unused(lo..hi, fm);
                Ok(seg)
            },
            None => Err(Error::NoMemory),
        }
    }
}

/// A power of two is at least the number it rounds up.
pub proof fn lemma_next_power_of_two_ge(count: nat)
    ensures
        next_power_of_two_spec(count) >= count,
        next_power_of_two_spec(count) >= 1,
    decreases count,
{
    if count > 1 {
        lemma_next_power_of_two_ge(((count + 1) / 2) as nat);
    }
}

/// The size of a page in bytes, as a `usize`.
pub const PAGE_SIZE_BYTES: usize = 4096;

/// A frame allocator with counters of the memory it manages.
///
/// `total` and `allocated` count bytes; the underlying buddy allocator
/// counts frames.
pub struct CountingFrameAllocator {
    allocator: FrameAllocator<32>,
    total: usize,
    allocated: usize,
}

impl CountingFrameAllocator {
    /// The multiset of free frame numbers.
    pub closed spec fn free_frames(self) -> Multiset<usize> {
        buddy_free_frames(self.allocator)
    }

    /// The frame counters (allocated, added) of the underlying allocator.
    pub closed spec fn frame_counters(self) -> (nat, nat) {
        buddy_counters(self.allocator)
    }

    /// The number of frames of the largest free block, 0 when there is
    /// none: a request is granted exactly when it fits in it.
    pub closed spec fn largest_free_block(self) -> nat {
        buddy_largest_free_block(self.allocator)
    }

    /// The total number of bytes managed.
    pub closed spec fn total_spec(self) -> usize {
        self.total
    }

    /// The number of bytes allocated.
    pub closed spec fn allocated_spec(self) -> usize {
        self.allocated
    }

    /// Wraps `allocator`, which manages `total` bytes.
    pub fn new(allocator: FrameAllocator<32>, total: usize) -> (r: Self)
        ensures
            r.free_frames() == buddy_free_frames(allocator),
            r.frame_counters() == buddy_counters(allocator),
            r.total_spec() == total,
            r.allocated_spec() == 0,
    {
        CountingFrameAllocator { allocator, total, allocated: 0 }
    }

    /// Allocates `count` contiguous frames; returns the first frame number.
    ///
    /// On success the allocated bytes grow by `count` pages (the buddy
    /// allocator itself reserves `count` rounded up to a power of two).
    pub fn alloc_frames(&mut self, count: usize) -> (r: Option<usize>)
        requires
            count <= 0x8000_0000_0000_0000,
            old(self).frame_counters().0 + next_power_of_two_spec(count as nat) <= usize::MAX,
            old(self).allocated_spec() + count * PAGE_SIZE_BYTES <= usize::MAX,
        ensures
            ({
                let size = next_power_of_two_spec(count as nat) as int;
                match r {
                    Some(s) => {
                        &&& s as int % size == 0
                        &&& s + size <= usize::MAX + 1
                        &&& forall|f: usize| in_block(f, s as int, size) ==> old(self).free_frames().count(f) >= 1
                        &&& forall|f: usize|
                            #[trigger] final(self).free_frames().count(f) == old(self).free_frames().count(f) - (
                            if in_block(f, s as int, size) {
                                1int
                            } else {
                                0int
                            })
                        &&& final(self).frame_counters() == (old(self).frame_counters().0 + size as nat, old(self).frame_counters().1)
                        &&& final(self).allocated_spec() == old(self).allocated_spec() + count * PAGE_SIZE_BYTES
                        &&& final(self).total_spec() == old(self).total_spec()
                    },
                    None => {
                        &&& *final(self) == *old(self)
                        &&& count <= 1 ==> forall|f: usize| old(self).free_frames().count(f) == 0
                    },
                }
            }),
            r is None <==> old(self).largest_free_block() < next_power_of_two_spec(count as nat),
    {
        match buddy_alloc(&mut self.allocator, count) {
            Some(value) => {
                self.allocated = self.allocated + count * PAGE_SIZE_BYTES;
                Some(value)
            },
            None => None,
        }
    }

    /// Returns the `count` frames starting at frame `start_frame`.
    pub fn dealloc(&mut self, start_frame: usize, count: usize)
        requires
            next_power_of_two_spec(count as nat) <= 0x8000_0000,
            start_frame as int % next_power_of_two_spec(count as nat) as int == 0,
            old(self).frame_counters().0 >= next_power_of_two_spec(count as nat),
            forall|f: usize|
                in_block(f, start_frame as int, next_power_of_two_spec(count as nat) as int) ==> old(self).free_frames().count(f) == 0,
            old(self).allocated_spec() >= count * PAGE_SIZE_BYTES,
        ensures
            forall|f: usize|
                #[trigger] final(self).free_frames().count(f) == old(self).free_frames().count(f) + (
                if in_block(f, start_frame as int, next_power_of_two_spec(count as nat) as int) {
                    1nat
                } else {
                    0nat
                }),
            final(self).frame_counters() == (
                (old(self).frame_counters().0 - next_power_of_two_spec(count as nat)) as nat,
                old(self).frame_counters().1,
            ),
            final(self).allocated_spec() == old(self).allocated_spec() - count * PAGE_SIZE_BYTES,
            final(self).total_spec() == old(self).total_spec(),
    {
        buddy_dealloc(&mut self.allocator, start_frame, count);
        self.allocated = self.allocated - count * PAGE_SIZE_BYTES;
    }

    /// The total number of bytes managed.
    pub fn mem_total(&self) -> (r: usize)
        ensures
            r == self.total_spec(),
    {
        self.total
    }

    /// The number of bytes not allocated.
    pub fn mem_available(&self) -> (r: usize)
        requires
            self.allocated_spec() <= self.total_spec(),
        ensures
            r == self.total_spec() - self.allocated_spec(),
    {
        self.total - self.allocated
    }
}

/// The type of a physical memory region reported by the boot loader.
#[derive(Clone, Copy, Debug, PartialEq, Eq, Structural)]
pub enum MemoryRegionType {
    /// Unknown or reserved memory.
    Reserved,
    /// Memory used by the kernel image or boot modules.
    Kernel,
    /// Memory that the frame allocator may manage.
    Usable,
}

/// A physical memory region reported by the boot loader.
#[derive(Clone, Copy, Debug)]
pub struct MemoryRegion {
    pub base: Paddr,
    pub len: u64,
    pub typ: MemoryRegionType,
}

impl MemoryRegion {
    /// The page-aligned frame range `[start, end)` inside the region, as
    /// frame numbers.
    pub open spec fn frame_range(self) -> (int, int) {
        let start = if self.base % PAGE_SIZE == 0 { self.base as int } else { self.base - self.base % PAGE_SIZE + PAGE_SIZE };
        let end = (self.base + self.len) - (self.base + self.len) % PAGE_SIZE as int;
        (start / PAGE_SIZE as int, end / PAGE_SIZE as int)
    }

    /// The number of frames that the allocator takes from the region.
    pub open spec fn usable_frames(self) -> int {
        if self.typ == MemoryRegionType::Usable && self.frame_range().0 < self.frame_range().1 {
            self.frame_range().1 - self.frame_range().0
        } else {
            0
        }
    }
}

/// Whether frame `f` is taken by the allocator from one of `regions`.
pub open spec fn frame_in_usable_region(regions: Seq<MemoryRegion>, f: usize) -> bool {
    exists|i: int| 0 <= i < regions.len() && regions[i].usable_frames() > 0 &&
        #[trigger] regions[i].frame_range().0 <= f < regions[i].frame_range().1
}

/// The number of bytes that the allocator takes from the first `n` regions.
pub open spec fn usable_bytes(regions: Seq<MemoryRegion>, n: int) -> int
    decreases n,
{
    if n <= 0 {
        0
    } else {
        usable_bytes(regions, n - 1) + regions[n - 1].usable_frames() * PAGE_SIZE
    }
}

/// Builds the frame allocator from the physical memory regions: every
/// usable region, shrunk to whole pages, becomes free frames; the total
/// counts their bytes.
///
/// The usable regions must not overlap (overlapping ones would hand the
/// same frames to the allocator twice), and the ends of the usable ones
/// must be representable: an overflowing end panics (excluded here).
pub fn init(regions: &Vec<MemoryRegion>) -> (r: CountingFrameAllocator)
    requires
        forall|i: int| 0 <= i < regions@.len() && #[trigger] regions@[i].typ == MemoryRegionType::Usable
            ==> regions@[i].base + regions@[i].len <= u64::MAX && regions@[i].base + PAGE_SIZE - 1 <= u64::MAX,
        forall|i: int| 0 <= i < regions@.len() && #[trigger] regions@[i].typ == MemoryRegionType::Usable
            ==> (regions@[i].base + regions@[i].len) / (PAGE_SIZE as int) <= usize::MAX,
        forall|i: int, j: int| 0 <= i < j < regions@.len() && regions@[i].typ == MemoryRegionType::Usable
            && regions@[j].typ == MemoryRegionType::Usable ==>
            (#[trigger] regions@[i].base + regions@[i].len <= regions@[j].base || #[trigger] regions@[j].base + regions@[j].len <= regions@[i].base),
        usable_bytes(regions@, regions@.len() as int) <= usize::MAX,
    ensures
        r.total_spec() == usable_bytes(regions@, regions@.len() as int),
        r.allocated_spec() == 0,
        r.frame_counters() == (0nat, (usable_bytes(regions@, regions@.len() as int) / PAGE_SIZE_BYTES as int) as nat),
        forall|f: usize| #[trigger] r.free_frames().count(f) == if frame_in_usable_region(regions@, f) { 1nat } else { 0nat },
{
    let mut total: usize = 0;
    let mut allocator = buddy_new();
    let mut k: usize = 0;
    while k < regions.len()
        invariant
            k <= regions@.len(),
            forall|i: int| 0 <= i < regions@.len() && #[trigger] regions@[i].typ == MemoryRegionType::Usable
                ==> regions@[i].base + regions@[i].len <= u64::MAX && regions@[i].base + PAGE_SIZE - 1 <= u64::MAX,
            forall|i: int| 0 <= i < regions@.len() && #[trigger] regions@[i].typ == MemoryRegionType::Usable
                ==> (regions@[i].base + regions@[i].len) / (PAGE_SIZE as int) <= usize::MAX,
            forall|i: int, j: int| 0 <= i < j < regions@.len() && regions@[i].typ == MemoryRegionType::Usable
                && regions@[j].typ == MemoryRegionType::Usable ==>
                (#[trigger] regions@[i].base + regions@[i].len <= regions@[j].base || #[trigger] regions@[j].base + regions@[j].len <= regions@[i].base),
            usable_bytes(regions@, regions@.len() as int) <= usize::MAX,
            total == usable_bytes(regions@, k as int),
            buddy_counters(allocator) == (0nat, (total / PAGE_SIZE_BYTES) as nat),
            total % PAGE_SIZE_BYTES == 0,
            forall|f: usize| #[trigger] buddy_free_frames(allocator).count(f) == if frame_in_usable_region(regions@.take(k as int), f) { 1nat } else { 0nat },
        decreases regions@.len() - k,
    {
        let region = regions[k];
        proof { lemma_usable_bytes_monotone(regions@, k as int + 1, regions@.len() as int); }
        if region.typ == MemoryRegionType::Usable {
            // Make the memory region page-aligned, and skip if it is too small.
            let start_addr = align_up(region.base, PAGE_SIZE);
            let region_end = region.base + region.len;
            let end_addr = align_down(region_end, PAGE_SIZE);
            let start = start_addr / PAGE_SIZE;
            let end = end_addr / PAGE_SIZE;
            if end > start {
                let (s, e) = (start as usize, end as usize);
                proof {
                    assert(region.frame_range() == (start as int, end as int));
                    assert forall|f: usize| in_block(f, s as int, e - s) implies buddy_free_frames(allocator).count(f) == 0 by {
                        if frame_in_usable_region(regions@.take(k as int), f) {
                            let i = choose|i: int| 0 <= i < k && regions@.take(k as int)[i].usable_frames() > 0 &&
                                #[trigger] regions@.take(k as int)[i].frame_range().0 <= f < regions@.take(k as int)[i].frame_range().1;
                            lemma_frames_within_region(regions@[i], f);
                            lemma_frames_within_region(region, f);
                            assert(regions@[i].typ == MemoryRegionType::Usable);
                        }
                    }
                }
                buddy_add_frame(&mut allocator, s, e);
                total = total + (e - s) * PAGE_SIZE_BYTES;
                proof {
                    assert forall|f: usize| #[trigger] buddy_free_frames(allocator).count(f) == if frame_in_usable_region(regions@.take(k as int + 1), f) { 1nat } else { 0nat } by {
                        lemma_take_push_region(regions@, k as int, f);
                    }
                }
            } else {
                proof {
                    assert(region.usable_frames() == 0);
                    assert forall|f: usize| #[trigger] buddy_free_frames(allocator).count(f) == if frame_in_usable_region(regions@.take(k as int + 1), f) { 1nat } else { 0nat } by {
                        lemma_take_push_region(regions@, k as int, f);
                    }
                }
            }
        } else {
            proof {
                assert forall|f: usize| #[trigger] buddy_free_frames(allocator).count(f) == if frame_in_usable_region(regions@.take(k as int + 1), f) { 1nat } else { 0nat } by {
                    lemma_take_push_region(regions@, k as int, f);
                }
            }
        }
        k = k + 1;
    }
    proof { assert(regions@.take(regions@.len() as int) =~= regions@); }
    CountingFrameAllocator::new(allocator, total)
}

proof fn lemma_usable_bytes_monotone(regions: Seq<MemoryRegion>, a: int, b: int)
    requires
        0 <= a <= b,
    ensures
        usable_bytes(regions, a) <= usable_bytes(regions, b),
    decreases b - a,
{
    if a < b {
        lemma_usable_bytes_monotone(regions, a, b - 1);
    }
}

proof fn lemma_frames_within_region(region: MemoryRegion, f: usize)
    requires
        region.frame_range().0 <= f < region.frame_range().1,
    ensures
        region.base <= f * PAGE_SIZE,
        (f + 1) * PAGE_SIZE <= region.base + region.len,
{
    let b = region.base as int;
    let e = region.base + region.len;
    let start = if b % 4096 == 0 { b } else { b - b % 4096 + 4096 };
    let end = e - e % 4096;
    assert(start % 4096 == 0 && start >= b) by {
        if b % 4096 != 0 {
            vstd::arithmetic::div_mod::lemma_fundamental_div_mod(b, 4096);
            vstd::arithmetic::div_mod::lemma_mod_multiples_basic(b / 4096 + 1, 4096);
        }
    }
    assert(end % 4096 == 0 && end <= e) by {
        vstd::arithmetic::div_mod::lemma_fundamental_div_mod(e, 4096);
        vstd::arithmetic::div_mod::lemma_mod_multiples_basic(e / 4096, 4096);
    }
    assert(f * 4096 >= start) by (nonlinear_arith)
        requires start / 4096 <= f, start % 4096 == 0, start >= 0;
    assert((f + 1) * 4096 <= end) by (nonlinear_arith)
        requires f < end / 4096, end % 4096 == 0, end >= 0;
}

proof fn lemma_take_push_region(regions: Seq<MemoryRegion>, k: int, f: usize)
    requires
        0 <= k < regions.len(),
    ensures
        frame_in_usable_region(regions.take(k + 1), f) == (frame_in_usable_region(regions.take(k), f) || (
            regions[k].usable_frames() > 0 && regions[k].frame_range().0 <= f < regions[k].frame_range().1)),
{
    let t = regions.take(k + 1);
    let t0 = regions.take(k);
    if frame_in_usable_region(t, f) {
        let i = choose|i: int| 0 <= i < t.len() && t[i].usable_frames() > 0 &&
            #[trigger] t[i].frame_range().0 <= f < t[i].frame_range().1;
        if i < k {
            assert(t0[i] == t[i]);
        }
    }
    if frame_in_usable_region(t0, f) {
        let i = choose|i: int| 0 <= i < t0.len() && t0[i].usable_frames() > 0 &&
            #[trigger] t0[i].frame_range().0 <= f < t0[i].frame_range().1;
        assert(t[i] == t0[i]);
    }
    if regions[k].usable_frames() > 0 && regions[k].frame_range().0 <= f < regions[k].frame_range().1 {
        assert(t[k] == regions[k]);
    }
}

/// Giving back a block that was just allocated restores the allocator: the
/// same free frames, counters and allocated bytes.
pub proof fn lemma_alloc_then_dealloc_restores(
    a0: CountingFrameAllocator,
    a1: CountingFrameAllocator,
    a2: CountingFrameAllocator,
    count: usize,
    s: usize,
)
    requires
        ({
            let size = next_power_of_two_spec(count as nat) as int;
            &&& forall|f: usize| #[trigger] a1.free_frames().count(f) == a0.free_frames().count(f) - (
                if in_block(f, s as int, size) { 1int } else { 0int })
            &&& a1.frame_counters() == (a0.frame_counters().0 + size as nat, a0.frame_counters().1)
            &&& a1.allocated_spec() == a0.allocated_spec() + count * PAGE_SIZE_BYTES
            &&& a1.total_spec() == a0.total_spec()
            &&& forall|f: usize| #[trigger] a2.free_frames().count(f) == a1.free_frames().count(f) + (
                if in_block(f, s as int, size) { 1nat } else { 0nat })
            &&& a2.frame_counters() == ((a1.frame_counters().0 - size) as nat, a1.frame_counters().1)
            &&& a2.allocated_spec() == a1.allocated_spec() - count * PAGE_SIZE_BYTES
            &&& a2.total_spec() == a1.total_spec()
        }),
    ensures
        a2.free_frames() == a0.free_frames(),
        a2.frame_counters() == a0.frame_counters(),
        a2.allocated_spec() == a0.allocated_spec(),
        a2.total_spec() == a0.total_spec(),
{
    assert forall|f: usize| #[trigger] a2.free_frames().count(f) == a0.free_frames().count(f) by {
        assert(a1.free_frames().count(f) == a0.free_frames().count(f) - (
            if in_block(f, s as int, next_power_of_two_spec(count as nat) as int) { 1int } else { 0int }));
    }
    assert(a2.free_frames() =~= a0.free_frames());
}

} // verus!
