//! A contiguous range of frames.

use vstd::prelude::*;
use core::marker::PhantomData;
use core::ops::Range;

use super::{Frame, FrameManager, MemoryType, REF_COUNT_MAX, REF_COUNT_UNUSED, max_meta_frames};
use super::allocator::PAGE_SIZE_BYTES;
use crate::mm::{Paddr, PAGE_SIZE};

verus! {

/// `counts` with the entries of frames `[lo, hi)` set to `v`.
pub open spec fn set_frames(counts: Seq<u32>, lo: int, hi: int, v: u32) -> Seq<u32> {
    Seq::new(counts.len(), |i: int| if lo <= i < hi { v } else { counts[i] })
}

/// `counts` with the entries of frames `[lo, hi)` incremented.
pub open spec fn inc_frames(counts: Seq<u32>, lo: int, hi: int) -> Seq<u32> {
    Seq::new(counts.len(), |i: int| if lo <= i < hi { (counts[i] + 1) as u32 } else { counts[i] })
}

/// `counts` after dropping one handle of each frame in `[lo, hi)`: the
/// last handle marks a frame unused.
pub open spec fn dec_frames(counts: Seq<u32>, lo: int, hi: int) -> Seq<u32> {
    Seq::new(counts.len(), |i: int| if lo <= i < hi {
        if counts[i] == 1 { REF_COUNT_UNUSED } else { (counts[i] - 1) as u32 }
    } else { counts[i] })
}

/// The number of frames in `[lo, hi)` whose reference count is 1.
pub open spec fn nr_last_refs(counts: Seq<u32>, lo: int, hi: int) -> nat
    decreases hi - lo,
{
    if hi <= lo {
        0
    } else {
        nr_last_refs(counts, lo, hi - 1) + if counts[hi - 1] == 1 { 1nat } else { 0nat }
    }
}

/// A contiguous range of homogeneous physical memory frames.
///
/// The segment holds one (forgotten) handle of each of its frames: its
/// creation adds a reference to each frame and its drop removes it.
#[derive(Debug)]
pub struct Segment<T: MemoryType> {
    range: Range<Paddr>,
    _marker: PhantomData<T>,
}

/// A contiguous range of untyped frames.
pub type USegment = Segment<super::Untyped>;

impl<T: MemoryType> Segment<T> {
    /// The start physical address.
    pub closed spec fn start(&self) -> Paddr {
        self.range.start
    }

    /// The end (exclusive) physical address.
    pub closed spec fn end(&self) -> Paddr {
        self.range.end
    }

    /// The first frame number.
    pub open spec fn first_frame(&self) -> int {
        (self.start() / PAGE_SIZE) as int
    }

    /// The frame number after the last frame.
    pub open spec fn end_frame(&self) -> int {
        (self.end() / PAGE_SIZE) as int
    }

    /// Both ends are page aligned and ordered.
    pub open spec fn wf(&self) -> bool {
        &&& self.start() % PAGE_SIZE == 0
        &&& self.end() % PAGE_SIZE == 0
        &&& self.start() <= self.end()
    }

    /// The segment's frames are frames of `fm` and in use.
    pub open spec fn valid(&self, fm: &FrameManager) -> bool {
        &&& self.wf()
        &&& self.end() <= fm.max_paddr()
        &&& forall|i: int| self.first_frame() <= i < self.end_frame() ==> {
            &&& #[trigger] fm.ref_count_of(i) != 0
            &&& fm.ref_count_of(i) != REF_COUNT_UNUSED
        }
    }

    /// Creates a new [`Segment`] from unused frames: each frame of the range
    /// gets a reference count of 1.
    ///
    /// The range must be page aligned and below `MAX_PADDR`; its frames must
    /// be unused and not held free by the allocator.
    pub fn from_unused(range: Range<Paddr>, fm: &mut FrameManager) -> (r: Self)
        requires
            old(fm).wf(),
            range.start % PAGE_SIZE == 0,
            range.end % PAGE_SIZE == 0,
            range.start <= range.end <= old(fm).max_paddr(),
            forall|i: int| (range.start / PAGE_SIZE) as int <= i < (range.end / PAGE_SIZE) as int ==> {
                &&& #[trigger] old(fm).ref_count_of(i) == REF_COUNT_UNUSED
                &&& !old(fm).is_free(i as usize)
            },
        ensures
            final(fm).wf(),
            r.start() == range.start,
            r.end() == range.end,
            r.valid(final(fm)),
            final(fm).allocator_spec() == old(fm).allocator_spec(),
            final(fm).ref_counts() == set_frames(old(fm).ref_counts(), (range.start / PAGE_SIZE) as int, (range.end / PAGE_SIZE) as int, 1),
    {
        let ghost lo = (range.start / PAGE_SIZE) as int;
        let mut paddr = range.start;
        while paddr < range.end
            invariant
                fm.wf(),
                range.start <= paddr <= range.end,
                paddr % PAGE_SIZE == 0,
                range.start % PAGE_SIZE == 0,
                range.end % PAGE_SIZE == 0,
                range.end <= fm.max_paddr(),
                fm.allocator_spec() == old(fm).allocator_spec(),
                fm.ref_counts() == set_frames(old(fm).ref_counts(), lo, (paddr / PAGE_SIZE) as int, 1),
                lo == (range.start / PAGE_SIZE) as int,
                forall|i: int| (range.start / PAGE_SIZE) as int <= i < (range.end / PAGE_SIZE) as int ==> {
                    &&& #[trigger] old(fm).ref_count_of(i) == REF_COUNT_UNUSED
                    &&& !old(fm).is_free(i as usize)
                },
            decreases range.end - paddr,
        {
            let ghost k = (paddr / PAGE_SIZE) as int;
            proof {
                assert(paddr + PAGE_SIZE <= range.end) by (nonlinear_arith)
                    requires paddr < range.end, paddr % 4096 == 0, range.end % 4096 == 0;
                assert((paddr + 4096) / 4096 == paddr / 4096 + 1) by (nonlinear_arith)
                    requires paddr % 4096 == 0;
                lemma_frame_number_bound(paddr, old(fm).nr_frames());
                assert(fm.ref_count_of(k) == old(fm).ref_count_of(k));
                assert(old(fm).is_free(k as usize) == fm.is_free(k as usize));
            }
            let frame = Frame::<T>::from_unused(paddr, fm);
            let _ = frame.into_raw();
            paddr = paddr + PAGE_SIZE;
            proof {
                assert(fm.ref_counts() =~= set_frames(old(fm).ref_counts(), lo, (paddr / PAGE_SIZE) as int, 1));
            }
        }
        Segment { range, _marker: PhantomData }
    }

    /// Gets the start physical address of the contiguous frames.
    pub fn start_paddr(&self) -> (r: Paddr)
        ensures
            r == self.start(),
    {
        self.range.start
    }

    /// Gets the end physical address of the contiguous frames.
    pub fn end_paddr(&self) -> (r: Paddr)
        ensures
            r == self.end(),
    {
        self.range.end
    }

    /// Gets the length in bytes of the contiguous frames.
    pub fn size(&self) -> (r: u64)
        requires
            self.wf(),
        ensures
            r == self.end() - self.start(),
    {
        self.range.end - self.range.start
    }

    /// Splits the frames into two at the given byte offset from the start.
    ///
    /// The resulting segments cannot be empty, so the offset is neither zero
    /// nor the length; it must be page aligned. The handles move to the two
    /// parts; no reference count changes.
    pub fn split(self, offset: u64) -> (r: (Self, Self))
        requires
            self.wf(),
            offset % PAGE_SIZE == 0,
            0 < offset < self.end() - self.start(),
        ensures
            r.0.start() == self.start(),
            r.0.end() == self.start() + offset,
            r.1.start() == self.start() + offset,
            r.1.end() == self.end(),
            r.0.wf(),
            r.1.wf(),
    {
        let at = self.range.start + offset;
        proof {
            assert((self.start() + offset) % 4096 == 0) by (nonlinear_arith)
                requires self.start() % 4096 == 0, offset % 4096 == 0;
        }
        (
            Segment { range: self.range.start..at, _marker: PhantomData },
            Segment { range: at..self.range.end, _marker: PhantomData },
        )
    }

    /// Gets an extra handle of the frames in the byte offset range, which
    /// is relative to the start of the segment. Each frame of the slice
    /// gains a reference.
    ///
    /// The range must be page aligned and within the segment; otherwise it
    /// panics (excluded here).
    pub fn slice(&self, range: &Range<u64>, fm: &mut FrameManager) -> (r: Self)
        requires
            old(fm).wf(),
            self.valid(old(fm)),
            range.start % PAGE_SIZE == 0,
            range.end % PAGE_SIZE == 0,
            range.start <= range.end,
            self.start() + range.end <= self.end(),
            forall|i: int| self.first_frame() + (range.start / PAGE_SIZE) as int <= i < self.first_frame() + (range.end / PAGE_SIZE) as int
                ==> #[trigger] old(fm).ref_count_of(i) < REF_COUNT_MAX,
        ensures
            final(fm).wf(),
            r.start() == self.start() + range.start,
            r.end() == self.start() + range.end,
            r.valid(final(fm)),
            self.valid(final(fm)),
            final(fm).allocator_spec() == old(fm).allocator_spec(),
            final(fm).ref_counts() == inc_frames(old(fm).ref_counts(), r.first_frame(), r.end_frame()),
    {
        let start = self.range.start + range.start;
        let end = self.range.start + range.end;
        proof {
            assert(start % 4096 == 0 && end % 4096 == 0) by (nonlinear_arith)
                requires start == self.start() + range.start, end == self.start() + range.end,
                    self.start() % 4096 == 0, range.start % 4096 == 0, range.end % 4096 == 0;
            assert(start / 4096 == self.start() / 4096 + range.start / 4096) by (nonlinear_arith)
                requires start == self.start() + range.start, self.start() % 4096 == 0, range.start % 4096 == 0;
            assert(end / 4096 == self.start() / 4096 + range.end / 4096) by (nonlinear_arith)
                requires end == self.start() + range.end, self.start() % 4096 == 0, range.end % 4096 == 0;
        }
        let r = Segment { range: start..end, _marker: PhantomData };
        inc_range(start, end, fm);
        proof {
            assert(self.end() <= fm.max_paddr());
            assert forall|i: int| self.first_frame() <= i < self.end_frame() implies {
                &&& #[trigger] fm.ref_count_of(i) != 0
                &&& fm.ref_count_of(i) != REF_COUNT_UNUSED
            } by {
                assert(old(fm).ref_count_of(i) != 0);
                lemma_frame_number_bound((self.end() - 1) as u64, old(fm).nr_frames());
                if r.first_frame() <= i < r.end_frame() {
                    assert(old(fm).ref_count_of(i) < REF_COUNT_MAX);
                }
            }
        }
        r
    }

    /// Creates another handle of the same frames: each frame gains a
    /// reference.
    pub fn clone(&self, fm: &mut FrameManager) -> (r: Self)
        requires
            old(fm).wf(),
            self.valid(old(fm)),
            forall|i: int| self.first_frame() <= i < self.end_frame() ==> #[trigger] old(fm).ref_count_of(i) < REF_COUNT_MAX,
        ensures
            final(fm).wf(),
            r.start() == self.start(),
            r.end() == self.end(),
            r.valid(final(fm)),
            final(fm).allocator_spec() == old(fm).allocator_spec(),
            final(fm).ref_counts() == inc_frames(old(fm).ref_counts(), self.first_frame(), self.end_frame()),
    {
        inc_range(self.range.start, self.range.end, fm);
        proof {
            assert forall|i: int| self.first_frame() <= i < self.end_frame() implies {
                &&& #[trigger] fm.ref_count_of(i) != 0
                &&& fm.ref_count_of(i) != REF_COUNT_UNUSED
            } by {
                assert(old(fm).ref_count_of(i) != 0);
                assert(old(fm).ref_count_of(i) < REF_COUNT_MAX);
                lemma_frame_number_bound((self.end() - 1) as u64, old(fm).nr_frames());
            }
        }
        Segment { range: self.range.start..self.range.end, _marker: PhantomData }
    }

    /// Drops the segment's handle of each frame; frames whose last handle
    /// this was are marked unused and returned to the allocator.
    pub fn drop(self, fm: &mut FrameManager)
        requires
            old(fm).wf(),
            self.valid(old(fm)),
            old(fm).allocator_spec().allocated_spec() >= (self.end_frame() - self.first_frame()) * PAGE_SIZE_BYTES,
            old(fm).allocator_spec().frame_counters().0 >= self.end_frame() - self.first_frame(),
        ensures
            final(fm).wf(),
            final(fm).ref_counts() == dec_frames(old(fm).ref_counts(), self.first_frame(), self.end_frame()),
            forall|f: usize| #[trigger] final(fm).allocator_spec().free_frames().count(f)
                == old(fm).allocator_spec().free_frames().count(f) + (
                    if self.first_frame() <= f < self.end_frame() && old(fm).ref_count_of(f as int) == 1 { 1nat } else { 0nat }),
            final(fm).allocator_spec().allocated_spec() == old(fm).allocator_spec().allocated_spec()
                - nr_last_refs(old(fm).ref_counts(), self.first_frame(), self.end_frame()) * PAGE_SIZE_BYTES,
            final(fm).allocator_spec().total_spec() == old(fm).allocator_spec().total_spec(),
    {
        let ghost lo = self.first_frame();
        let ghost hi = self.end_frame();
        let mut paddr = self.range.start;
        while paddr < self.range.end
            invariant
                fm.wf(),
                self.wf(),
                self.start() <= paddr <= self.end(),
                paddr % PAGE_SIZE == 0,
                self.end() <= fm.max_paddr(),
                fm.nr_frames() == old(fm).nr_frames(),
                lo == self.first_frame(),
                hi == self.end_frame(),
                forall|i: int| (paddr / PAGE_SIZE) as int <= i < hi ==> #[trigger] fm.ref_count_of(i) == old(fm).ref_count_of(i),
                forall|i: int| lo <= i < hi ==> {
                    &&& #[trigger] old(fm).ref_count_of(i) != 0
                    &&& old(fm).ref_count_of(i) != REF_COUNT_UNUSED
                },
                fm.ref_counts() == dec_frames(old(fm).ref_counts(), lo, (paddr / PAGE_SIZE) as int),
                forall|f: usize| #[trigger] fm.allocator_spec().free_frames().count(f)
                    == old(fm).allocator_spec().free_frames().count(f) + (
                        if lo <= f < (paddr / PAGE_SIZE) as int && old(fm).ref_count_of(f as int) == 1 { 1nat } else { 0nat }),
                fm.allocator_spec().allocated_spec() == old(fm).allocator_spec().allocated_spec()
                    - nr_last_refs(old(fm).ref_counts(), lo, (paddr / PAGE_SIZE) as int) * PAGE_SIZE_BYTES,
                fm.allocator_spec().frame_counters().0 == old(fm).allocator_spec().frame_counters().0
                    - nr_last_refs(old(fm).ref_counts(), lo, (paddr / PAGE_SIZE) as int),
                fm.allocator_spec().total_spec() == old(fm).allocator_spec().total_spec(),
                old(fm).allocator_spec().allocated_spec() >= (hi - lo) * PAGE_SIZE_BYTES,
                old(fm).allocator_spec().frame_counters().0 >= hi - lo,
            decreases self.end() - paddr,
        {
            let ghost k = (paddr / PAGE_SIZE) as int;
            let ghost before = *fm;
            proof {
                assert(paddr + PAGE_SIZE <= self.end()) by (nonlinear_arith)
                    requires paddr < self.end(), paddr % 4096 == 0, self.end() % 4096 == 0;
                assert((paddr + 4096) / 4096 == paddr / 4096 + 1) by (nonlinear_arith)
                    requires paddr % 4096 == 0;
                assert(k < fm.nr_frames()) by (nonlinear_arith)
                    requires k == paddr / 4096, paddr < fm.nr_frames() * 4096;
                lemma_nr_last_refs_bound(old(fm).ref_counts(), lo, k);
                assert(lo <= k) by (nonlinear_arith)
                    requires lo == self.start() / 4096, k == paddr / 4096, self.start() <= paddr;
                assert(k < hi) by (nonlinear_arith)
                    requires hi == self.end() / 4096, k == paddr / 4096, paddr < self.end(), self.end() % 4096 == 0;
                let nl = nr_last_refs(old(fm).ref_counts(), lo, k);
                assert(nl * 4096 <= (k - lo) * 4096) by (nonlinear_arith)
                    requires nl <= k - lo;
                assert((k - lo) * 4096 + 4096 <= (hi - lo) * 4096) by (nonlinear_arith)
                    requires k < hi;
                assert(paddr / PAGE_SIZE < max_meta_frames());
            }
            let frame = Frame::<T>::from_raw(paddr);
            proof {
                assert(frame.slot_ok(fm)) by { frame.lemma_slot_ok_from_paddr(fm); }
            }
            proof {
                assert(k < old(fm).nr_frames());
                assert(before.ref_count_of(k) == old(fm).ref_count_of(k));
                assert(frame.index() == k);
            }
            frame.drop(fm);
            paddr = paddr + PAGE_SIZE;
            proof {
                let c = old(fm).ref_counts();
                assert(paddr / PAGE_SIZE == k + 1);
                assert(nr_last_refs(c, lo, k + 1) == nr_last_refs(c, lo, k) + if c[k] == 1 { 1nat } else { 0nat });
                if c[k] == 1 {
                    assert(fm.released(before, k as usize));
                    assert(fm.ref_counts() == before.ref_counts().update(k, REF_COUNT_UNUSED));
                } else {
                    assert(fm.ref_counts() == before.ref_counts().update(k, (c[k] - 1) as u32));
                }
                assert(fm.ref_counts() =~= dec_frames(old(fm).ref_counts(), lo, (paddr / PAGE_SIZE) as int));
                assert forall|f: usize| #[trigger] fm.allocator_spec().free_frames().count(f)
                    == old(fm).allocator_spec().free_frames().count(f) + (
                        if lo <= f < (paddr / PAGE_SIZE) as int && old(fm).ref_count_of(f as int) == 1 { 1nat } else { 0nat }) by {
                    assert(before.allocator_spec().free_frames().count(f)
                        == old(fm).allocator_spec().free_frames().count(f) + (
                        if lo <= f < k && old(fm).ref_count_of(f as int) == 1 { 1nat } else { 0nat }));
                }
            }
        }
    }

    /// Takes the first frame of the segment as a frame handle, if any; the
    /// segment shrinks by that frame.
    pub fn next(&mut self) -> (r: Option<Frame<T>>)
        requires
            old(self).wf(),
            old(self).end() / PAGE_SIZE <= max_meta_frames(),
        ensures
            final(self).wf(),
            final(self).end() == old(self).end(),
            old(self).start() < old(self).end() ==> {
                &&& r.is_some()
                &&& r.unwrap().paddr() == old(self).start()
                &&& r.unwrap().well_placed()
                &&& final(self).start() == old(self).start() + PAGE_SIZE
            },
            old(self).start() == old(self).end() ==> r.is_none() && final(self).start() == old(self).start(),
    {
        if self.range.start < self.range.end {
            proof {
                assert(self.start() / PAGE_SIZE < self.end() / PAGE_SIZE) by (nonlinear_arith)
                    requires self.start() < self.end(), self.start() % 4096 == 0, self.end() % 4096 == 0;
                assert(self.start() + PAGE_SIZE <= self.end()) by (nonlinear_arith)
                    requires self.start() < self.end(), self.start() % 4096 == 0, self.end() % 4096 == 0;
            }
            let frame = Frame::<T>::from_raw(self.range.start);
            self.range.start = self.range.start + PAGE_SIZE;
            Some(frame)
        } else {
            None
        }
    }

    /// Turns a frame handle into a one-frame segment that owns the handle.
    pub fn from(frame: Frame<T>) -> (r: Self)
        requires
            frame.well_placed(),
        ensures
            r.start() == frame.paddr(),
            r.end() == frame.paddr() + PAGE_SIZE,
            r.wf(),
    {
        let pa = frame.into_raw();
        proof { frame.lemma_well_placed_bounds(); }
        Segment { range: pa..pa + PAGE_SIZE, _marker: PhantomData }
    }
}

/// An address below `n` frames lies in a frame numbered below `n`.
pub proof fn lemma_frame_number_bound(paddr: u64, n: nat)
    requires
        paddr < n * PAGE_SIZE,
    ensures
        paddr / PAGE_SIZE < n,
{
    assert(paddr / 4096 < n) by (nonlinear_arith)
        requires paddr < n * 4096;
}

proof fn lemma_nr_last_refs_bound(counts: Seq<u32>, lo: int, hi: int)
    requires
        lo <= hi,
    ensures
        nr_last_refs(counts, lo, hi) <= hi - lo,
    decreases hi - lo,
{
    if lo < hi {
        lemma_nr_last_refs_bound(counts, lo, hi - 1);
    }
}

/// Increments the reference count of each frame in `[start, end)`.
fn inc_range(start: Paddr, end: Paddr, fm: &mut FrameManager)
    requires
        old(fm).wf(),
        start % PAGE_SIZE == 0,
        end % PAGE_SIZE == 0,
        start <= end <= old(fm).max_paddr(),
        forall|i: int| (start / PAGE_SIZE) as int <= i < (end / PAGE_SIZE) as int ==> {
            &&& #[trigger] old(fm).ref_count_of(i) != 0
            &&& old(fm).ref_count_of(i) < REF_COUNT_MAX
        },
    ensures
        final(fm).wf(),
        final(fm).allocator_spec() == old(fm).allocator_spec(),
        final(fm).ref_counts() == inc_frames(old(fm).ref_counts(), (start / PAGE_SIZE) as int, (end / PAGE_SIZE) as int),
{
    let ghost lo = (start / PAGE_SIZE) as int;
    let mut paddr = start;
    while paddr < end
        invariant
            fm.wf(),
            start <= paddr <= end,
            paddr % PAGE_SIZE == 0,
            end % PAGE_SIZE == 0,
            end <= fm.max_paddr(),
            fm.nr_frames() == old(fm).nr_frames(),
            lo == (start / PAGE_SIZE) as int,
            fm.allocator_spec() == old(fm).allocator_spec(),
            fm.ref_counts() == inc_frames(old(fm).ref_counts(), lo, (paddr / PAGE_SIZE) as int),
            forall|i: int| (start / PAGE_SIZE) as int <= i < (end / PAGE_SIZE) as int ==> {
                &&& #[trigger] old(fm).ref_count_of(i) != 0
                &&& old(fm).ref_count_of(i) < REF_COUNT_MAX
            },
        decreases end - paddr,
    {
        proof {
            assert(paddr + PAGE_SIZE <= end) by (nonlinear_arith)
                requires paddr < end, paddr % 4096 == 0, end % 4096 == 0;
            assert((paddr + 4096) / 4096 == paddr / 4096 + 1) by (nonlinear_arith)
                requires paddr % 4096 == 0;
            assert(paddr / 4096 < end / 4096) by (nonlinear_arith)
                requires paddr < end, paddr % 4096 == 0, end % 4096 == 0;
            assert(lo <= paddr / 4096) by (nonlinear_arith)
                requires lo == start / 4096, start <= paddr;
            let k = (paddr / PAGE_SIZE) as int;
            lemma_frame_number_bound(paddr, old(fm).nr_frames());
            assert(fm.ref_count_of(k) == old(fm).ref_count_of(k));
        }
        super::inc_frame_ref_count(paddr, fm);
        paddr = paddr + PAGE_SIZE;
        proof {
            assert(fm.ref_counts() =~= inc_frames(old(fm).ref_counts(), lo, (paddr / PAGE_SIZE) as int));
        }
    }
}

} // verus!
