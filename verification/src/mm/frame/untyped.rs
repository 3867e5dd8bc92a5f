//! Untyped physical memory.
//!
//! Untyped frames and segments hold raw bytes, which the kernel reads and
//! writes through the linear mapping of physical memory.

use vstd::prelude::*;

use super::{Frame, Segment, Untyped};
use crate::error::Error;
use crate::mm::io::{
    accessible_prefix, fault_free_len, lemma_fault_free_len, min_len, FallibleVmRead, FallibleVmWrite, Fallible, Infallible, VirtMem, VmReader,
    VmWriter,
};
use crate::mm::{align_up, Paddr, Vaddr, KERNEL_BASE_VADDR, KERNEL_END_VADDR, LINEAR_MAPPING_BASE_VADDR, PAGE_SIZE, VMALLOC_BASE_VADDR};

verus! {

/// The physical range `[pa, pa + size)` lies within the linear mapping.
pub open spec fn linearly_mapped(pa: int, size: int) -> bool {
    0 <= pa && 0 <= size && pa + size <= VMALLOC_BASE_VADDR - LINEAR_MAPPING_BASE_VADDR
}

/// A range of untyped physical memory, which the kernel or the user may
/// read and write.
pub trait UntypedMem {
    /// The range lies within the linear mapping.
    spec fn mapped(&self) -> bool;

    /// Borrows a reader of the memory.
    fn reader(&self) -> VmReader<Infallible>
        requires
            self.mapped(),
    ;

    /// Borrows a writer to the memory.
    fn writer(&self) -> VmWriter<Infallible>
        requires
            self.mapped(),
    ;
}

/// A reader of the physical range `[pa, pa + size)` through the linear
/// mapping.
fn linear_reader(pa: Paddr, size: u64) -> (r: VmReader<Infallible>)
    requires
        linearly_mapped(pa as int, size as int),
    ensures
        r.cursor_addr() == LINEAR_MAPPING_BASE_VADDR + pa,
        r.end_addr() == LINEAR_MAPPING_BASE_VADDR + pa + size,
{
    VmReader::from_kernel_space(LINEAR_MAPPING_BASE_VADDR + pa, size)
}

/// A writer to the physical range `[pa, pa + size)` through the linear
/// mapping.
fn linear_writer(pa: Paddr, size: u64) -> (r: VmWriter<Infallible>)
    requires
        linearly_mapped(pa as int, size as int),
    ensures
        r.cursor_addr() == LINEAR_MAPPING_BASE_VADDR + pa,
        r.end_addr() == LINEAR_MAPPING_BASE_VADDR + pa + size,
{
    VmWriter::from_kernel_space(LINEAR_MAPPING_BASE_VADDR + pa, size)
}

impl UntypedMem for Frame<Untyped> {
    open spec fn mapped(&self) -> bool {
        self.well_placed() && linearly_mapped(self.paddr() as int, PAGE_SIZE as int)
    }

    fn reader(&self) -> (r: VmReader<Infallible>)
        ensures
            r.cursor_addr() == LINEAR_MAPPING_BASE_VADDR + self.paddr(),
            r.end_addr() == LINEAR_MAPPING_BASE_VADDR + self.paddr() + PAGE_SIZE,
    {
        linear_reader(self.start_paddr(), self.size())
    }

    fn writer(&self) -> (r: VmWriter<Infallible>)
        ensures
            r.cursor_addr() == LINEAR_MAPPING_BASE_VADDR + self.paddr(),
            r.end_addr() == LINEAR_MAPPING_BASE_VADDR + self.paddr() + PAGE_SIZE,
    {
        linear_writer(self.start_paddr(), self.size())
    }
}

impl UntypedMem for Segment<Untyped> {
    open spec fn mapped(&self) -> bool {
        self.wf() && linearly_mapped(self.start() as int, self.end() - self.start())
    }

    fn reader(&self) -> (r: VmReader<Infallible>)
        ensures
            r.cursor_addr() == LINEAR_MAPPING_BASE_VADDR + self.start(),
            r.end_addr() == LINEAR_MAPPING_BASE_VADDR + self.end(),
    {
        linear_reader(self.start_paddr(), self.size())
    }

    fn writer(&self) -> (r: VmWriter<Infallible>)
        ensures
            r.cursor_addr() == LINEAR_MAPPING_BASE_VADDR + self.start(),
            r.end_addr() == LINEAR_MAPPING_BASE_VADDR + self.end(),
    {
        linear_writer(self.start_paddr(), self.size())
    }
}

/// The outcome of a read of `n` bytes from `src` into the writer `w0`
/// that stops at the first byte that faults: `k` bytes were copied.
pub open spec fn read_outcome(src: int, n: int, w0: VmWriter<Fallible>, w1: VmWriter<Fallible>, mem0: VirtMem, mem1: VirtMem, k: int) -> bool {
    &&& accessible_prefix(mem0, w0.cursor_addr(), src, n, k)
    &&& w1.cursor_addr() == w0.cursor_addr() + k
    &&& w1.end_addr() == w0.end_addr()
    &&& mem0.copied_into(mem1, w0.cursor_addr(), src, k)
}

/// The outcome of a write of `n` bytes from the reader `r0` to `dst` that
/// stops at the first byte that faults: `k` bytes were copied.
pub open spec fn write_outcome(dst: int, n: int, r0: VmReader<Fallible>, r1: VmReader<Fallible>, mem0: VirtMem, mem1: VirtMem, k: int) -> bool {
    &&& accessible_prefix(mem0, dst, r0.cursor_addr(), n, k)
    &&& r1.cursor_addr() == r0.cursor_addr() + k
    &&& r1.end_addr() == r0.end_addr()
    &&& mem0.copied_into(mem1, dst, r0.cursor_addr(), k)
}

/// Reads the untyped memory `[pa, pa + size)` from `offset` on into the
/// writer, as much as the writer has room for.
fn read_untyped(pa: Paddr, size: u64, offset: u64, writer: &mut VmWriter<Fallible>, mem: &mut VirtMem) -> (r: Result<(), Error>)
    requires
        linearly_mapped(pa as int, size as int),
    ensures
        offset > size ==> r == Err::<(), Error>(Error::InvalidArgs) && *final(writer) == *old(writer) && *final(mem) == *old(mem),
        offset <= size ==> ({
            let n = min_len(old(writer).avail_spec(), size - offset);
            let k = fault_free_len(*old(mem), old(writer).cursor_addr(), LINEAR_MAPPING_BASE_VADDR + pa + offset, n);
            &&& read_outcome(
                LINEAR_MAPPING_BASE_VADDR + pa + offset,
                min_len(old(writer).avail_spec(), size - offset),
                *old(writer), *final(writer), *old(mem), *final(mem), k,
            )
            &&& (r is Ok <==> k == min_len(old(writer).avail_spec(), size - offset))
            &&& (r is Err ==> r == Err::<(), Error>(Error::PageFault))
        }),
{
    let avail = writer.avail();
    let rest = if offset <= size { size - offset } else { 0 };
    let read_len = if avail <= rest { avail } else { rest };
    let max_offset = match offset.checked_add(read_len) {
        Some(m) => m,
        None => { return Err(Error::Overflow); },
    };
    if max_offset > size {
        return Err(Error::InvalidArgs);
    }
    let mut reader = linear_reader(pa, size).skip(offset);
    let res = reader.read_fallible(writer, mem);
    proof {
        let k: int = match res { Ok(c) => c as int, Err((_, c)) => c as int };
        lemma_fault_free_len(*old(mem), old(writer).cursor_addr(), LINEAR_MAPPING_BASE_VADDR + pa + offset, read_len as int, k);
    }
    match res {
        Ok(_) => Ok(()),
        Err((e, _)) => Err(e),
    }
}

/// Writes the data of the reader to the untyped memory `[pa, pa + size)`
/// from `offset` on, as much as there is room for.
fn write_untyped(pa: Paddr, size: u64, offset: u64, reader: &mut VmReader<Fallible>, mem: &mut VirtMem) -> (r: Result<(), Error>)
    requires
        linearly_mapped(pa as int, size as int),
    ensures
        offset > size ==> r == Err::<(), Error>(Error::InvalidArgs) && *final(reader) == *old(reader) && *final(mem) == *old(mem),
        offset <= size ==> ({
            let n = min_len(old(reader).remain_spec(), size - offset);
            let k = fault_free_len(*old(mem), LINEAR_MAPPING_BASE_VADDR + pa + offset, old(reader).cursor_addr(), n);
            &&& write_outcome(
                LINEAR_MAPPING_BASE_VADDR + pa + offset,
                min_len(old(reader).remain_spec(), size - offset),
                *old(reader), *final(reader), *old(mem), *final(mem), k,
            )
            &&& (r is Ok <==> k == min_len(old(reader).remain_spec(), size - offset))
            &&& (r is Err ==> r == Err::<(), Error>(Error::PageFault))
        }),
{
    let remain = reader.remain();
    let rest = if offset <= size { size - offset } else { 0 };
    let write_len = if remain <= rest { remain } else { rest };
    let max_offset = match offset.checked_add(write_len) {
        Some(m) => m,
        None => { return Err(Error::Overflow); },
    };
    if max_offset > size {
        return Err(Error::InvalidArgs);
    }
    let mut writer = linear_writer(pa, size).skip(offset);
    let res = writer.write_fallible(reader, mem);
    proof {
        let k: int = match res { Ok(c) => c as int, Err((_, c)) => c as int };
        lemma_fault_free_len(*old(mem), LINEAR_MAPPING_BASE_VADDR + pa + offset, old(reader).cursor_addr(), write_len as int, k);
    }
    match res {
        Ok(_) => Ok(()),
        Err((e, _)) => Err(e),
    }
}

/// What a read of the object of `size` bytes at address `base`, from
/// `offset` into the writer `w0`, does: past the end it fails with
/// `InvalidArgs` and changes nothing; otherwise it copies as much as the
/// writer has room for, up to the end, stopping at the first byte that
/// faults, and fails with `PageFault` if one did.
pub open spec fn read_result(
    base: int, size: int, offset: int, w0: VmWriter<Fallible>, w1: VmWriter<Fallible>, mem0: VirtMem, mem1: VirtMem,
    r: Result<(), Error>,
) -> bool {
    &&& offset > size ==> r == Err::<(), Error>(Error::InvalidArgs) && w1 == w0 && mem1 == mem0
    &&& offset <= size ==> ({
        let n = min_len(w0.avail_spec(), size - offset);
        let k = fault_free_len(mem0, w0.cursor_addr(), base + offset, n);
        &&& read_outcome(base + offset, n, w0, w1, mem0, mem1, k)
        &&& (r is Ok <==> k == n)
        &&& (r is Err ==> r == Err::<(), Error>(Error::PageFault))
    })
}

/// What a write to the object of `size` bytes at address `base`, from
/// `offset` on, of the data of the reader `r0` does: past the end it fails
/// with `InvalidArgs` and changes nothing; otherwise it copies as much of
/// the data as there is room for, stopping at the first byte that faults,
/// and fails with `PageFault` if one did.
pub open spec fn write_result(
    base: int, size: int, offset: int, r0: VmReader<Fallible>, r1: VmReader<Fallible>, mem0: VirtMem, mem1: VirtMem,
    r: Result<(), Error>,
) -> bool {
    &&& offset > size ==> r == Err::<(), Error>(Error::InvalidArgs) && r1 == r0 && mem1 == mem0
    &&& offset <= size ==> ({
        let n = min_len(r0.remain_spec(), size - offset);
        let k = fault_free_len(mem0, base + offset, r0.cursor_addr(), n);
        &&& write_outcome(base + offset, n, r0, r1, mem0, mem1, k)
        &&& (r is Ok <==> k == n)
        &&& (r is Err ==> r == Err::<(), Error>(Error::PageFault))
    })
}

/// What a read of the object of `size` bytes at `base`, from `offset`
/// into the `len` bytes of kernel memory at `buf`, does.
pub open spec fn read_bytes_result(base: int, size: int, offset: int, buf: int, len: int, mem0: VirtMem, mem1: VirtMem, r: Result<(), Error>) -> bool {
    &&& offset > size ==> r == Err::<(), Error>(Error::InvalidArgs) && mem1 == mem0
    &&& offset <= size ==> ({
        let n = min_len(len, size - offset);
        let k = fault_free_len(mem0, buf, base + offset, n);
        &&& accessible_prefix(mem0, buf, base + offset, n, k)
        &&& mem0.copied_into(mem1, buf, base + offset, k)
        &&& (r is Ok <==> k == n)
        &&& (r is Err ==> r == Err::<(), Error>(Error::PageFault))
    })
}

/// What a write of the `len` bytes of kernel memory at `buf` to the object
/// of `size` bytes at `base`, from `offset` on, does.
pub open spec fn write_bytes_result(base: int, size: int, offset: int, buf: int, len: int, mem0: VirtMem, mem1: VirtMem, r: Result<(), Error>) -> bool {
    &&& offset > size ==> r == Err::<(), Error>(Error::InvalidArgs) && mem1 == mem0
    &&& offset <= size ==> ({
        let n = min_len(len, size - offset);
        let k = fault_free_len(mem0, base + offset, buf, n);
        &&& accessible_prefix(mem0, base + offset, buf, n, k)
        &&& mem0.copied_into(mem1, base + offset, buf, k)
        &&& (r is Ok <==> k == n)
        &&& (r is Err ==> r == Err::<(), Error>(Error::PageFault))
    })
}

/// The `len` bytes at `buf` lie in kernel space, unless there are none.
pub open spec fn kernel_buffer(buf: int, len: int) -> bool {
    &&& buf + len <= u64::MAX
    &&& len == 0 || KERNEL_BASE_VADDR <= buf
    &&& len == 0 || buf + len <= KERNEL_END_VADDR
}

/// The offset of the first value that `VmIo::write_vals` writes: `offset`
/// rounded up to `align`, which takes effect from 2 on.
pub open spec fn vals_start(offset: int, align: int) -> int {
    if align / 2 == 0 { offset } else if offset % align == 0 { offset } else { offset - offset % align + align }
}

/// The distance between the values that `VmIo::write_vals` writes: their
/// size rounded up to `align`, which takes effect from 2 on.
pub open spec fn vals_step(size: int, align: int) -> int {
    if align / 2 == 0 { size } else if size % align == 0 { size } else { size - size % align + align }
}

/// `ms` are the memories before and after each of the first `n` writes of
/// `VmIo::write_vals`, all of which succeeded: the value at `vals[i]`
/// went to offset `start + i * step`.
pub open spec fn vals_written(
    base: int, size: int, start: int, step: int, vals: Seq<Vaddr>, len: int, ms: Seq<VirtMem>, n: int,
) -> bool {
    &&& 0 <= n <= vals.len()
    &&& ms.len() == n + 1
    &&& forall|i: int| #![trigger ms[i]] 0 <= i < n
        ==> write_bytes_result(base, size, start + i * step, vals[i] as int, len, ms[i], ms[i + 1], Ok(()))
}

/// VM objects whose bytes can be read into writers and written from
/// readers, at an offset.
pub trait VmIo {
    /// The object can be accessed.
    spec fn accessible(&self) -> bool;

    /// The virtual address of the first byte of the object.
    spec fn io_base(&self) -> int;

    /// The number of bytes of the object.
    spec fn io_size(&self) -> int;

    /// Reads from `offset` into the writer, as much as it has room for.
    fn read(&self, offset: u64, writer: &mut VmWriter<Fallible>, mem: &mut VirtMem) -> (r: Result<(), Error>)
        requires
            self.accessible(),
        ensures
            read_result(self.io_base(), self.io_size(), offset as int, *old(writer), *final(writer), *old(mem), *final(mem), r),
    ;

    /// Writes the data of the reader from `offset` on, as much as there is
    /// room for.
    fn write(&self, offset: u64, reader: &mut VmReader<Fallible>, mem: &mut VirtMem) -> (r: Result<(), Error>)
        requires
            self.accessible(),
        ensures
            write_result(self.io_base(), self.io_size(), offset as int, *old(reader), *final(reader), *old(mem), *final(mem), r),
    ;

    /// Reads from `offset` into the `len` bytes of kernel memory at `buf`.
    fn read_bytes(&self, offset: u64, buf: Vaddr, len: u64, mem: &mut VirtMem) -> (r: Result<(), Error>)
        requires
            self.accessible(),
            kernel_buffer(buf as int, len as int),
        ensures
            read_bytes_result(self.io_base(), self.io_size(), offset as int, buf as int, len as int, *old(mem), *final(mem), r),
    {
        let mut writer = VmWriter::<Infallible>::from_kernel_space(buf, len).to_fallible();
        self.read(offset, &mut writer, mem)
    }

    /// Reads a value of `size` bytes from `offset` into kernel memory at
    /// `val`.
    fn read_val(&self, offset: u64, val: Vaddr, size: u64, mem: &mut VirtMem) -> (r: Result<(), Error>)
        requires
            self.accessible(),
            kernel_buffer(val as int, size as int),
        ensures
            read_bytes_result(self.io_base(), self.io_size(), offset as int, val as int, size as int, *old(mem), *final(mem), r),
    {
        self.read_bytes(offset, val, size, mem)
    }

    /// Reads from `offset` into the `count` values of `size` bytes each
    /// that lie one after another in kernel memory at `slice`.
    fn read_slice(&self, offset: u64, slice: Vaddr, count: u64, size: u64, mem: &mut VirtMem) -> (r: Result<(), Error>)
        requires
            self.accessible(),
            count * size <= u64::MAX,
            kernel_buffer(slice as int, count * size),
        ensures
            read_bytes_result(self.io_base(), self.io_size(), offset as int, slice as int, count * size, *old(mem), *final(mem), r),
    {
        let len_in_bytes = count * size;
        self.read_bytes(offset, slice, len_in_bytes, mem)
    }

    /// Writes the `len` bytes of kernel memory at `buf` from `offset` on.
    fn write_bytes(&self, offset: u64, buf: Vaddr, len: u64, mem: &mut VirtMem) -> (r: Result<(), Error>)
        requires
            self.accessible(),
            kernel_buffer(buf as int, len as int),
        ensures
            write_bytes_result(self.io_base(), self.io_size(), offset as int, buf as int, len as int, *old(mem), *final(mem), r),
    {
        let mut reader = VmReader::<Infallible>::from_kernel_space(buf, len).to_fallible();
        self.write(offset, &mut reader, mem)
    }

    /// Writes the value of `size` bytes at `val` in kernel memory to
    /// `offset`.
    fn write_val(&self, offset: u64, val: Vaddr, size: u64, mem: &mut VirtMem) -> (r: Result<(), Error>)
        requires
            self.accessible(),
            kernel_buffer(val as int, size as int),
        ensures
            write_bytes_result(self.io_base(), self.io_size(), offset as int, val as int, size as int, *old(mem), *final(mem), r),
    {
        self.write_bytes(offset, val, size, mem)
    }

    /// Writes the `count` values of `size` bytes each that lie one after
    /// another in kernel memory at `slice`, from `offset` on.
    fn write_slice(&self, offset: u64, slice: Vaddr, count: u64, size: u64, mem: &mut VirtMem) -> (r: Result<(), Error>)
        requires
            self.accessible(),
            count * size <= u64::MAX,
            kernel_buffer(slice as int, count * size),
        ensures
            write_bytes_result(self.io_base(), self.io_size(), offset as int, slice as int, count * size, *old(mem), *final(mem), r),
    {
        let len_in_bytes = count * size;
        self.write_bytes(offset, slice, len_in_bytes, mem)
    }

    /// Writes the values of `size` bytes at the kernel addresses `vals`,
    /// one after another from `offset` on, each at an offset aligned to
    /// `align` (no alignment for 0 or 1), and stops at the first write that
    /// fails. Returns the number of values written, or the error of the
    /// first write if none was.
    ///
    /// An `align` from 2 on that is not a power of two panics (excluded
    /// here).
    fn write_vals(&self, offset: u64, vals: &[Vaddr], size: u64, align: u64, mem: &mut VirtMem) -> (r: Result<u64, Error>)
        requires
            self.accessible(),
            forall|i: int| 0 <= i < vals@.len() ==> kernel_buffer(#[trigger] vals@[i] as int, size as int),
            align / 2 != 0 ==> align & ((align - 1) as u64) == 0,
            align / 2 != 0 ==> offset + align - 1 <= u64::MAX && size + align - 1 <= u64::MAX,
            0 <= self.io_size(),
            self.io_size() + vals_step(size as int, align as int) <= u64::MAX,
        ensures
            ({
                let start = vals_start(offset as int, align as int);
                let step = vals_step(size as int, align as int);
                exists|ms: Seq<VirtMem>, n: int| {
                    &&& #[trigger] vals_written(self.io_base(), self.io_size(), start, step, vals@, size as int, ms, n)
                    &&& ms[0] == *old(mem)
                    &&& {
                        ||| n == vals@.len() && *final(mem) == ms[n] && r == Ok::<u64, Error>(n as u64)
                        ||| n < vals@.len() && exists|e: Error| {
                            &&& write_bytes_result(self.io_base(), self.io_size(), start + n * step, vals@[n] as int, size as int, ms[n], *final(mem), Err(e))
                            &&& r == if n > 0 { Ok::<u64, Error>(n as u64) } else { Err::<u64, Error>(e) }
                        }
                    }
                }
            }),
    {
        proof {
            assert((align >> 1) == align / 2) by (bit_vector);
        }
        let (mut off, step) = if (align >> 1) == 0 {
            (offset, size)
        } else {
            (align_up(offset, align), align_up(size, align))
        };
        let ghost start = vals_start(offset as int, align as int);
        assert(off == start && step == vals_step(size as int, align as int));
        let mut nr_written: u64 = 0;
        let mut idx: usize = 0;
        let ghost mut ms: Seq<VirtMem> = seq![*mem];
        while idx < vals.len()
            invariant
                self.accessible(),
                forall|i: int| 0 <= i < vals@.len() ==> kernel_buffer(#[trigger] vals@[i] as int, size as int),
                0 <= self.io_size(),
                self.io_size() + step <= u64::MAX,
                start == vals_start(offset as int, align as int),
                step == vals_step(size as int, align as int),
                idx <= vals@.len(),
                nr_written == idx,
                off == start + idx * step,
                idx > 0 ==> off <= self.io_size() + step,
                vals_written(self.io_base(), self.io_size(), start, step as int, vals@, size as int, ms, idx as int),
                ms[0] == *old(mem),
                ms[idx as int] == *mem,
            decreases vals@.len() - idx,
        {
            let ghost before = *mem;
            let res = self.write_val(off, vals[idx], size, mem);
            match res {
                Ok(_) => {
                    proof {
                        let ms2 = ms.push(*mem);
                        assert forall|i: int| #![trigger ms2[i]] 0 <= i < idx + 1 implies
                            write_bytes_result(self.io_base(), self.io_size(), start + i * step, vals@[i] as int, size as int, ms2[i], ms2[i + 1], Ok(())) by {
                            if i < idx {
                                assert(ms2[i] == ms[i] && ms2[i + 1] == ms[i + 1]);
                            }
                        }
                        ms = ms2;
                        assert(off <= self.io_size());
                        assert(start + (idx + 1) * step == start + idx * step + step) by (nonlinear_arith);
                    }
                    off = off + step;
                    nr_written = nr_written + 1;
                    idx = idx + 1;
                },
                Err(e) => {
                    proof {
                        assert(vals_written(self.io_base(), self.io_size(), start, step as int, vals@, size as int, ms, idx as int));
                    }
                    if nr_written > 0 {
                        return Ok(nr_written);
                    }
                    return Err(e);
                },
            }
        }
        Ok(nr_written)
    }
}

impl VmIo for Frame<Untyped> {
    open spec fn accessible(&self) -> bool {
        self.mapped()
    }

    open spec fn io_base(&self) -> int {
        LINEAR_MAPPING_BASE_VADDR + self.paddr()
    }

    open spec fn io_size(&self) -> int {
        PAGE_SIZE as int
    }

    fn read(&self, offset: u64, writer: &mut VmWriter<Fallible>, mem: &mut VirtMem) -> (r: Result<(), Error>) {
        read_untyped(self.start_paddr(), self.size(), offset, writer, mem)
    }

    fn write(&self, offset: u64, reader: &mut VmReader<Fallible>, mem: &mut VirtMem) -> (r: Result<(), Error>) {
        write_untyped(self.start_paddr(), self.size(), offset, reader, mem)
    }
}

impl VmIo for Segment<Untyped> {
    open spec fn accessible(&self) -> bool {
        self.mapped()
    }

    open spec fn io_base(&self) -> int {
        LINEAR_MAPPING_BASE_VADDR + self.start()
    }

    open spec fn io_size(&self) -> int {
        self.end() - self.start()
    }

    fn read(&self, offset: u64, writer: &mut VmWriter<Fallible>, mem: &mut VirtMem) -> (r: Result<(), Error>) {
        read_untyped(self.start_paddr(), self.size(), offset, writer, mem)
    }

    fn write(&self, offset: u64, reader: &mut VmReader<Fallible>, mem: &mut VirtMem) -> (r: Result<(), Error>) {
        write_untyped(self.start_paddr(), self.size(), offset, reader, mem)
    }
}

/// A borrowed handle of an untyped frame, which is used like a
/// `&Frame<Untyped>`: it neither takes nor gives back a reference.
pub struct FrameRef {
    inner: Frame<Untyped>,
}

impl FrameRef {
    /// The frame that is borrowed.
    pub closed spec fn frame(&self) -> Frame<Untyped> {
        self.inner
    }

    /// Borrows the frame at `paddr`, as handed out by `Frame::into_raw`,
    /// without taking a reference.
    pub fn raw_as_ref(paddr: Paddr) -> (r: Self)
        requires
            paddr % PAGE_SIZE == 0,
            paddr / PAGE_SIZE < super::max_meta_frames(),
        ensures
            r.frame().well_placed(),
            r.frame().paddr() == paddr,
    {
        FrameRef { inner: Frame::from_raw(paddr) }
    }

    /// The borrowed frame.
    pub fn deref(&self) -> (r: &Frame<Untyped>)
        ensures
            *r == self.frame(),
    {
        &self.inner
    }
}

} // verus!
