//! Abstractions for reading and writing virtual memory (VM) objects.
//!
//! A [`VmReader`] reads from a contiguous range of virtual memory and a
//! [`VmWriter`] writes to one. Kernel memory is always accessible, so
//! accesses through an `Infallible` reader or writer cannot fail; user
//! memory may fault, so accesses through a `Fallible` one stop at the first
//! byte that faults and report how far they got.
//!
//! The memory itself is the [`VirtMem`] handed to each access: the bytes of
//! a range of virtual addresses, with `None` where an access faults.

use vstd::prelude::*;
use core::marker::PhantomData;

use crate::error::Error;
use crate::mm::{Vaddr, KERNEL_BASE_VADDR, KERNEL_END_VADDR, MAX_USERSPACE_VADDR};

verus! {

/// The bytes of the virtual memory `[base, base + bytes.len())` as the CPU
/// sees them: the byte at address `base + i` is `bytes[i]`, or `None` where
/// an access faults. Every address outside the range faults.
pub struct VirtMem {
    pub base: Vaddr,
    pub bytes: Vec<Option<u8>>,
}

impl VirtMem {
    /// The range fits in the address space.
    pub open spec fn wf(&self) -> bool {
        self.base + self.bytes@.len() <= u64::MAX + 1
    }

    /// The byte at address `a`, `None` where an access faults.
    pub open spec fn byte(&self, a: int) -> Option<u8> {
        if self.base <= a < self.base + self.bytes@.len() {
            self.bytes@[a - self.base]
        } else {
            None
        }
    }

    /// No byte of `[start, start + len)` faults.
    pub open spec fn present(&self, start: int, len: int) -> bool {
        forall|a: int| start <= a < start + len ==> (#[trigger] self.byte(a)) is Some
    }

    /// `new` is this memory after the `n` bytes at `src` were copied to
    /// `dst` (as by `memmove`: the bytes read are those before the copy).
    pub open spec fn copied_into(self, new: VirtMem, dst: int, src: int, n: int) -> bool {
        &&& new.base == self.base
        &&& new.bytes@.len() == self.bytes@.len()
        &&& forall|a: int| #[trigger] new.byte(a) == if dst <= a < dst + n {
            self.byte(src + (a - dst))
        } else {
            self.byte(a)
        }
    }

    /// `new` is this memory after `[dst, dst + n)` was filled with copies
    /// of `pattern`, the first copy starting at `dst`.
    pub open spec fn filled_into(self, new: VirtMem, dst: int, n: int, pattern: Seq<u8>) -> bool {
        &&& new.base == self.base
        &&& new.bytes@.len() == self.bytes@.len()
        &&& forall|a: int| #[trigger] new.byte(a) == if dst <= a < dst + n {
            Some(pattern[(a - dst) % (pattern.len() as int)])
        } else {
            self.byte(a)
        }
    }

    /// Reads the byte at address `a`.
    pub fn read_byte(&self, a: Vaddr) -> (r: Option<u8>)
        ensures
            r == self.byte(a as int),
    {
        if self.base <= a && a - self.base < self.bytes.len() as u64 {
            self.bytes[(a - self.base) as usize]
        } else {
            None
        }
    }

    /// Writes `v` to the byte at address `a`, which must not fault.
    pub fn write_byte(&mut self, a: Vaddr, v: u8)
        requires
            old(self).byte(a as int) is Some,
        ensures
            final(self).base == old(self).base,
            final(self).bytes@.len() == old(self).bytes@.len(),
            forall|b: int| #[trigger] final(self).byte(b) == if b == a { Some(v) } else { old(self).byte(b) },
    {
        let ghost old_mem = *self;
        let n = self.bytes.len();
        assert(self.base <= a && a - self.base < n);
        let i = (a - self.base) as usize;
        assert(i == a - self.base);
        self.bytes.set(i, Some(v));
        assert forall|b: int| #[trigger] self.byte(b) == if b == a { Some(v) } else { old_mem.byte(b) } by {
            if self.base <= b < self.base + self.bytes@.len() {
                assert(self.bytes@[b - self.base] == if b - self.base == i { Some(v) } else { old_mem.bytes@[b - self.base] });
            }
        }
    }
}

/// The number of leading bytes of the `n` bytes at `src` and at `dst` that
/// can be accessed: the copy of `n` bytes from `src` to `dst` stops before
/// the first position where either faults.
pub open spec fn accessible_prefix(mem: VirtMem, dst: int, src: int, n: int, k: int) -> bool {
    &&& 0 <= k <= n
    &&& mem.present(src, k)
    &&& mem.present(dst, k)
    &&& k < n ==> (mem.byte(src + k) is None || mem.byte(dst + k) is None)
}

/// The number of bytes that a copy of `n` bytes from `src` to `dst` gets
/// through before the first byte that faults.
pub open spec fn fault_free_len(mem: VirtMem, dst: int, src: int, n: int) -> int {
    choose|k: int| accessible_prefix(mem, dst, src, n, k)
}

/// A copy stops at one place only: `k` is the number of bytes it gets
/// through.
pub proof fn lemma_fault_free_len(mem: VirtMem, dst: int, src: int, n: int, k: int)
    requires
        accessible_prefix(mem, dst, src, n, k),
    ensures
        fault_free_len(mem, dst, src, n) == k,
{
    let c = fault_free_len(mem, dst, src, n);
    assert(accessible_prefix(mem, dst, src, n, c));
    if c < k {
        assert(mem.byte(src + c) is Some);
        assert(mem.byte(dst + c) is Some);
    } else if k < c {
        assert(mem.byte(src + k) is Some);
        assert(mem.byte(dst + k) is Some);
    }
}

/// `k` is the number of leading bytes of the `n` bytes at `dst` that do not
/// fault: an access to the `n` bytes stops before the first that faults.
pub open spec fn present_prefix(mem: VirtMem, dst: int, n: int, k: int) -> bool {
    &&& 0 <= k <= n
    &&& mem.present(dst, k)
    &&& k < n ==> mem.byte(dst + k) is None
}

/// Counts the leading positions `i < n` at which both `src + i` and
/// `dst + i` can be accessed.
fn accessible_len(mem: &VirtMem, dst: Vaddr, src: Vaddr, n: u64) -> (k: u64)
    requires
        src + n <= u64::MAX + 1,
        dst + n <= u64::MAX + 1,
    ensures
        accessible_prefix(*mem, dst as int, src as int, n as int, k as int),
{
    let mut k: u64 = 0;
    while k < n
        invariant
            k <= n,
            src + n <= u64::MAX + 1,
            dst + n <= u64::MAX + 1,
            mem.present(src as int, k as int),
            mem.present(dst as int, k as int),
        decreases n - k,
    {
        if mem.read_byte(src + k).is_none() || mem.read_byte(dst + k).is_none() {
            return k;
        }
        k = k + 1;
    }
    k
}

/// Copies the `n` bytes at `src` to `dst`, none of which may fault. The
/// bytes are read before any is written, so overlapping ranges are copied
/// as by `memmove`.
fn copy_bytes(mem: &mut VirtMem, dst: Vaddr, src: Vaddr, n: u64)
    requires
        old(mem).present(src as int, n as int),
        old(mem).present(dst as int, n as int),
        src + n <= u64::MAX + 1,
        dst + n <= u64::MAX + 1,
    ensures
        old(mem).copied_into(*final(mem), dst as int, src as int, n as int),
{
    let mut buf: Vec<u8> = Vec::new();
    let mut i: u64 = 0;
    while i < n
        invariant
            i <= n,
            src + n <= u64::MAX + 1,
            mem.present(src as int, n as int),
            buf@.len() == i,
            forall|j: int| 0 <= j < i ==> Some(#[trigger] buf@[j]) == mem.byte(src + j),
        decreases n - i,
    {
        let b = mem.read_byte(src + i);
        assert(mem.byte(src + i) is Some);
        match b {
            Some(v) => buf.push(v),
            None => {},
        }
        i = i + 1;
    }
    let ghost mem0 = *mem;
    let mut j: u64 = 0;
    while j < n
        invariant
            j <= n,
            dst + n <= u64::MAX + 1,
            buf@.len() == n,
            forall|x: int| 0 <= x < n ==> Some(#[trigger] buf@[x]) == mem0.byte(src + x),
            mem0.present(dst as int, n as int),
            mem.base == mem0.base,
            mem.bytes@.len() == mem0.bytes@.len(),
            forall|a: int| #[trigger] mem.byte(a) == if dst <= a < dst + j {
                Some(buf@[a - dst])
            } else {
                mem0.byte(a)
            },
        decreases n - j,
    {
        assert(mem.byte(dst + j) == mem0.byte(dst + j));
        assert(mem0.byte(dst + j) is Some);
        mem.write_byte(dst + j, buf[j as usize]);
        j = j + 1;
    }
    assert forall|a: int| #[trigger] mem.byte(a) == if dst <= a < dst + n {
        mem0.byte(src + (a - dst))
    } else {
        mem0.byte(a)
    } by {
        if dst <= a < dst + n {
            assert(Some(buf@[a - dst]) == mem0.byte(src + (a - dst)));
        }
    }
}

/// Reads the `n` bytes at `src`, none of which may fault.
fn read_bytes_at(mem: &VirtMem, src: Vaddr, n: u64) -> (r: Vec<u8>)
    requires
        mem.present(src as int, n as int),
        src + n <= u64::MAX + 1,
    ensures
        r@.len() == n,
        forall|j: int| 0 <= j < n ==> Some(#[trigger] r@[j]) == mem.byte(src + j),
{
    let mut buf: Vec<u8> = Vec::new();
    let mut i: u64 = 0;
    while i < n
        invariant
            i <= n,
            src + n <= u64::MAX + 1,
            mem.present(src as int, n as int),
            buf@.len() == i,
            forall|j: int| 0 <= j < i ==> Some(#[trigger] buf@[j]) == mem.byte(src + j),
        decreases n - i,
    {
        let b = mem.read_byte(src + i);
        assert(mem.byte(src + i) is Some);
        match b {
            Some(v) => buf.push(v),
            None => {},
        }
        i = i + 1;
    }
    buf
}

/// Fills the `n` bytes at `dst`, none of which may fault, with copies of
/// `pattern`.
pub(crate) fn fill_pattern(mem: &mut VirtMem, dst: Vaddr, n: u64, pattern: &[u8])
    requires
        pattern@.len() > 0,
        old(mem).present(dst as int, n as int),
        dst + n <= u64::MAX + 1,
    ensures
        old(mem).filled_into(*final(mem), dst as int, n as int, pattern@),
{
    let ghost mem0 = *mem;
    let len = pattern.len() as u64;
    let mut j: u64 = 0;
    let mut p: u64 = 0;
    while j < n
        invariant
            j <= n,
            dst + n <= u64::MAX + 1,
            len == pattern@.len(),
            len > 0,
            p < len,
            p == j % len,
            mem0.present(dst as int, n as int),
            mem.base == mem0.base,
            mem.bytes@.len() == mem0.bytes@.len(),
            forall|a: int| #[trigger] mem.byte(a) == if dst <= a < dst + j {
                Some(pattern@[(a - dst) % (len as int)])
            } else {
                mem0.byte(a)
            },
        decreases n - j,
    {
        assert(mem.byte(dst + j) == mem0.byte(dst + j));
        assert(mem0.byte(dst + j) is Some);
        mem.write_byte(dst + j, pattern[p as usize]);
        proof {
            let q = j as int / len as int;
            vstd::arithmetic::div_mod::lemma_fundamental_div_mod(j as int, len as int);
            vstd::arithmetic::mul::lemma_mul_is_commutative(q, len as int);
            if p + 1 < len {
                vstd::arithmetic::div_mod::lemma_fundamental_div_mod_converse(j + 1, len as int, q, p + 1);
            } else {
                vstd::arithmetic::mul::lemma_mul_is_distributive_add_other_way(len as int, q, 1);
                vstd::arithmetic::div_mod::lemma_fundamental_div_mod_converse(j + 1, len as int, q + 1, 0);
            }
        }
        p = if p + 1 == len { 0 } else { p + 1 };
        j = j + 1;
    }
}

/// Counts the leading bytes of the `n` bytes at `dst` that do not fault.
fn present_len(mem: &VirtMem, dst: Vaddr, n: u64) -> (k: u64)
    requires
        dst + n <= u64::MAX + 1,
    ensures
        present_prefix(*mem, dst as int, n as int, k as int),
{
    let mut k: u64 = 0;
    while k < n
        invariant
            k <= n,
            dst + n <= u64::MAX + 1,
            mem.present(dst as int, k as int),
        decreases n - k,
    {
        if mem.read_byte(dst + k).is_none() {
            return k;
        }
        k = k + 1;
    }
    k
}

/// A marker for [`VmReader`] and [`VmWriter`]: accesses to the memory range
/// may fail (user space).
pub struct Fallible;

/// A marker for [`VmReader`] and [`VmWriter`]: accesses to the memory range
/// cannot fail (kernel space).
pub struct Infallible;

/// The smaller of two lengths.
pub open spec fn min_len(a: int, b: int) -> int {
    if a <= b { a } else { b }
}

/// A reader of the contiguous virtual memory `[cursor, end)`.
///
/// Reads from kernel space (`Infallible`) cannot fail; reads from user
/// space (`Fallible`) stop at the first byte that faults.
pub struct VmReader<Fallibility = Fallible> {
    cursor: Vaddr,
    end: Vaddr,
    phantom: PhantomData<Fallibility>,
}

/// A writer to the contiguous virtual memory `[cursor, end)`.
///
/// Writes to kernel space (`Infallible`) cannot fail; writes to user space
/// (`Fallible`) stop at the first byte that faults.
pub struct VmWriter<Fallibility = Fallible> {
    cursor: Vaddr,
    end: Vaddr,
    phantom: PhantomData<Fallibility>,
}

impl<F> VmReader<F> {
    /// The cursor never passes the end.
    #[verifier::type_invariant]
    spec fn inv(self) -> bool {
        self.cursor <= self.end
    }

    /// The address of the next byte to read.
    pub closed spec fn cursor_addr(self) -> int {
        self.cursor as int
    }

    /// The end (exclusive) of the range to read.
    pub closed spec fn end_addr(self) -> int {
        self.end as int
    }

    /// The number of bytes left to read.
    pub open spec fn remain_spec(self) -> int {
        self.end_addr() - self.cursor_addr()
    }

    /// Returns the number of bytes left to read.
    pub fn remain(&self) -> (r: u64)
        ensures
            r == self.remain_spec(),
    {
        proof { use_type_invariant(self); }
        self.end - self.cursor
    }

    /// Returns the address of the next byte to read.
    pub fn cursor(&self) -> (r: Vaddr)
        ensures
            r == self.cursor_addr(),
    {
        self.cursor
    }

    /// Returns whether there are bytes left to read.
    pub fn has_remain(&self) -> (r: bool)
        ensures
            r == (self.remain_spec() > 0),
    {
        self.remain() > 0
    }

    /// Limits the bytes left to read to at most `max_remain`.
    pub fn limit(self, max_remain: u64) -> (r: Self)
        ensures
            r.cursor_addr() == self.cursor_addr(),
            r.end_addr() == if max_remain < self.remain_spec() {
                self.cursor_addr() + max_remain
            } else {
                self.end_addr()
            },
    {
        proof { use_type_invariant(&self); }
        let mut r = self;
        if max_remain < r.remain() {
            r.end = r.cursor + max_remain;
        }
        r
    }

    /// Skips the first `nbytes` bytes left to read.
    ///
    /// Skipping more than what is left panics (excluded here).
    pub fn skip(self, nbytes: u64) -> (r: Self)
        requires
            nbytes <= self.remain_spec(),
        ensures
            r.cursor_addr() == self.cursor_addr() + nbytes,
            r.end_addr() == self.end_addr(),
    {
        proof { use_type_invariant(&self); }
        let mut r = self;
        r.cursor = r.cursor + nbytes;
        r
    }
}

impl<F> VmWriter<F> {
    /// The cursor never passes the end.
    #[verifier::type_invariant]
    spec fn inv(self) -> bool {
        self.cursor <= self.end
    }

    /// The address of the next byte to write.
    pub closed spec fn cursor_addr(self) -> int {
        self.cursor as int
    }

    /// The end (exclusive) of the range to write.
    pub closed spec fn end_addr(self) -> int {
        self.end as int
    }

    /// The number of bytes that can still be written.
    pub open spec fn avail_spec(self) -> int {
        self.end_addr() - self.cursor_addr()
    }

    /// Returns the number of bytes that can still be written.
    pub fn avail(&self) -> (r: u64)
        ensures
            r == self.avail_spec(),
    {
        proof { use_type_invariant(self); }
        self.end - self.cursor
    }

    /// Returns the address of the next byte to write.
    pub fn cursor(&self) -> (r: Vaddr)
        ensures
            r == self.cursor_addr(),
    {
        self.cursor
    }

    /// Returns whether there is room left to write.
    pub fn has_avail(&self) -> (r: bool)
        ensures
            r == (self.avail_spec() > 0),
    {
        self.avail() > 0
    }

    /// Limits the room left to write to at most `max_avail` bytes.
    pub fn limit(self, max_avail: u64) -> (r: Self)
        ensures
            r.cursor_addr() == self.cursor_addr(),
            r.end_addr() == if max_avail < self.avail_spec() {
                self.cursor_addr() + max_avail
            } else {
                self.end_addr()
            },
    {
        proof { use_type_invariant(&self); }
        let mut r = self;
        if max_avail < r.avail() {
            r.end = r.cursor + max_avail;
        }
        r
    }

    /// Skips the first `nbytes` bytes of the room left to write.
    ///
    /// Skipping more than the room left panics (excluded here).
    pub fn skip(self, nbytes: u64) -> (r: Self)
        requires
            nbytes <= self.avail_spec(),
        ensures
            r.cursor_addr() == self.cursor_addr() + nbytes,
            r.end_addr() == self.end_addr(),
    {
        proof { use_type_invariant(&self); }
        let mut r = self;
        r.cursor = r.cursor + nbytes;
        r
    }
}

/// Copies bytes from the reader to the writer until the reader has nothing
/// left, the writer has no room left, or a byte of either faults; both
/// cursors advance by the number of bytes copied.
fn copy_until_fault<F1, F2>(reader: &mut VmReader<F1>, writer: &mut VmWriter<F2>, mem: &mut VirtMem) -> (r: Result<u64, (Error, u64)>)
    ensures
        ({
            let n = min_len(old(reader).remain_spec(), old(writer).avail_spec());
            let k: int = match r { Ok(c) => c as int, Err((_, c)) => c as int };
            &&& accessible_prefix(*old(mem), old(writer).cursor_addr(), old(reader).cursor_addr(), n, k)
            &&& r is Ok <==> k == n
            &&& r matches Err((e, _)) ==> e == Error::PageFault
            &&& final(reader).cursor_addr() == old(reader).cursor_addr() + k
            &&& final(reader).end_addr() == old(reader).end_addr()
            &&& final(writer).cursor_addr() == old(writer).cursor_addr() + k
            &&& final(writer).end_addr() == old(writer).end_addr()
            &&& old(mem).copied_into(*final(mem), old(writer).cursor_addr(), old(reader).cursor_addr(), k)
        }),
{
    proof {
        use_type_invariant(&*reader);
        use_type_invariant(&*writer);
    }
    let remain = reader.remain();
    let avail = writer.avail();
    let copy_len = if remain <= avail { remain } else { avail };
    if copy_len == 0 {
        proof {
            assert(old(mem).copied_into(*mem, writer.cursor as int, reader.cursor as int, 0));
        }
        return Ok(0);
    }
    let copied = accessible_len(mem, writer.cursor, reader.cursor, copy_len);
    copy_bytes(mem, writer.cursor, reader.cursor, copied);
    reader.cursor = reader.cursor + copied;
    writer.cursor = writer.cursor + copied;
    if copied < copy_len {
        Err((Error::PageFault, copied))
    } else {
        Ok(copied)
    }
}

impl VmReader<Infallible> {
    /// Constructs a reader of the kernel memory `[ptr, ptr + len)`, which
    /// must lie in kernel space unless it is empty.
    pub fn from_kernel_space(ptr: Vaddr, len: u64) -> (r: Self)
        requires
            ptr + len <= u64::MAX,
            len == 0 || KERNEL_BASE_VADDR <= ptr,
            len == 0 || ptr + len <= KERNEL_END_VADDR,
        ensures
            r.cursor_addr() == ptr,
            r.end_addr() == ptr + len,
    {
        VmReader { cursor: ptr, end: ptr + len, phantom: PhantomData }
    }

    /// Reads all data into the writer until the reader has nothing left or
    /// the writer has no room left, and returns the number of bytes read.
    ///
    /// Kernel memory does not fault: every byte involved must be accessible.
    pub fn read(&mut self, writer: &mut VmWriter<Infallible>, mem: &mut VirtMem) -> (r: u64)
        requires
            old(mem).present(old(self).cursor_addr(), min_len(old(self).remain_spec(), old(writer).avail_spec())),
            old(mem).present(old(writer).cursor_addr(), min_len(old(self).remain_spec(), old(writer).avail_spec())),
        ensures
            r == min_len(old(self).remain_spec(), old(writer).avail_spec()),
            final(self).cursor_addr() == old(self).cursor_addr() + r,
            final(self).end_addr() == old(self).end_addr(),
            final(writer).cursor_addr() == old(writer).cursor_addr() + r,
            final(writer).end_addr() == old(writer).end_addr(),
            old(mem).copied_into(*final(mem), old(writer).cursor_addr(), old(self).cursor_addr(), r as int),
    {
        let res = copy_until_fault(self, writer, mem);
        match res {
            Ok(n) => n,
            Err((_, n)) => n,
        }
    }

    /// Reads a value of `size` bytes, returned as its bytes.
    ///
    /// Fails with `InvalidArgs`, reading nothing, when fewer than `size`
    /// bytes are left.
    pub fn read_val(&mut self, mem: &VirtMem, size: u64) -> (r: Result<Vec<u8>, Error>)
        requires
            size <= old(self).remain_spec() ==> mem.present(old(self).cursor_addr(), size as int),
        ensures
            old(self).remain_spec() < size ==> r == Err::<Vec<u8>, Error>(Error::InvalidArgs) && *final(self) == *old(self),
            size <= old(self).remain_spec() ==> {
                &&& r is Ok
                &&& r->Ok_0@.len() == size
                &&& forall|j: int| 0 <= j < size ==> Some(#[trigger] r->Ok_0@[j]) == mem.byte(old(self).cursor_addr() + j)
                &&& final(self).cursor_addr() == old(self).cursor_addr() + size
                &&& final(self).end_addr() == old(self).end_addr()
            },
    {
        proof { use_type_invariant(&*self); }
        if self.remain() < size {
            return Err(Error::InvalidArgs);
        }
        let val = read_bytes_at(mem, self.cursor, size);
        self.cursor = self.cursor + size;
        Ok(val)
    }

    /// Reads a value of `size` bytes with a single load, returned as its
    /// bytes.
    ///
    /// Fails with `InvalidArgs`, reading nothing, when fewer than `size`
    /// bytes are left. A cursor that is not aligned to `size` panics
    /// (excluded here).
    pub fn read_once(&mut self, mem: &VirtMem, size: u64) -> (r: Result<Vec<u8>, Error>)
        requires
            size > 0,
            size <= old(self).remain_spec() ==> old(self).cursor_addr() % (size as int) == 0,
            size <= old(self).remain_spec() ==> mem.present(old(self).cursor_addr(), size as int),
        ensures
            old(self).remain_spec() < size ==> r == Err::<Vec<u8>, Error>(Error::InvalidArgs) && *final(self) == *old(self),
            size <= old(self).remain_spec() ==> {
                &&& r is Ok
                &&& r->Ok_0@.len() == size
                &&& forall|j: int| 0 <= j < size ==> Some(#[trigger] r->Ok_0@[j]) == mem.byte(old(self).cursor_addr() + j)
                &&& final(self).cursor_addr() == old(self).cursor_addr() + size
                &&& final(self).end_addr() == old(self).end_addr()
            },
    {
        self.read_val(mem, size)
    }

    /// Converts to a fallible reader of the same range.
    pub fn to_fallible(self) -> (r: VmReader<Fallible>)
        ensures
            r.cursor_addr() == self.cursor_addr(),
            r.end_addr() == self.end_addr(),
    {
        proof { use_type_invariant(&self); }
        VmReader { cursor: self.cursor, end: self.end, phantom: PhantomData }
    }
}

impl VmReader<Fallible> {
    /// Constructs a reader of the user memory `[ptr, ptr + len)`, which must
    /// lie below the end of user space.
    pub fn from_user_space(ptr: Vaddr, len: u64) -> (r: Self)
        requires
            ptr + len <= MAX_USERSPACE_VADDR,
        ensures
            r.cursor_addr() == ptr,
            r.end_addr() == ptr + len,
    {
        VmReader { cursor: ptr, end: ptr + len, phantom: PhantomData }
    }

    /// Reads a value of `size` bytes, returned as its bytes.
    ///
    /// Fails with `InvalidArgs` when fewer than `size` bytes are left, and
    /// with `PageFault` when one of the bytes faults; on failure the cursor
    /// stays where it was.
    pub fn read_val(&mut self, mem: &VirtMem, size: u64) -> (r: Result<Vec<u8>, Error>)
        ensures
            old(self).remain_spec() < size ==> r == Err::<Vec<u8>, Error>(Error::InvalidArgs),
            size <= old(self).remain_spec() && !mem.present(old(self).cursor_addr(), size as int)
                ==> r == Err::<Vec<u8>, Error>(Error::PageFault),
            r is Err ==> *final(self) == *old(self),
            size <= old(self).remain_spec() && mem.present(old(self).cursor_addr(), size as int) ==> {
                &&& r is Ok
                &&& r->Ok_0@.len() == size
                &&& forall|j: int| 0 <= j < size ==> Some(#[trigger] r->Ok_0@[j]) == mem.byte(old(self).cursor_addr() + j)
                &&& final(self).cursor_addr() == old(self).cursor_addr() + size
                &&& final(self).end_addr() == old(self).end_addr()
            },
    {
        proof { use_type_invariant(&*self); }
        if self.remain() < size {
            return Err(Error::InvalidArgs);
        }
        let k = present_len(mem, self.cursor, size);
        if k < size {
            proof {
                assert(mem.byte(self.cursor + k) is None);
            }
            return Err(Error::PageFault);
        }
        let val = read_bytes_at(mem, self.cursor, size);
        self.cursor = self.cursor + size;
        Ok(val)
    }

    /// Collects all the bytes left to read.
    ///
    /// Fails with `PageFault` when one of them faults; the cursor then stays
    /// where it was.
    pub fn collect(&mut self, mem: &VirtMem) -> (r: Result<Vec<u8>, Error>)
        ensures
            !mem.present(old(self).cursor_addr(), old(self).remain_spec()) ==> {
                &&& r == Err::<Vec<u8>, Error>(Error::PageFault)
                &&& *final(self) == *old(self)
            },
            mem.present(old(self).cursor_addr(), old(self).remain_spec()) ==> {
                &&& r is Ok
                &&& r->Ok_0@.len() == old(self).remain_spec()
                &&& forall|j: int| 0 <= j < old(self).remain_spec() ==> Some(#[trigger] r->Ok_0@[j]) == mem.byte(old(self).cursor_addr() + j)
                &&& final(self).cursor_addr() == old(self).end_addr()
                &&& final(self).end_addr() == old(self).end_addr()
            },
    {
        let n = self.remain();
        self.read_val(mem, n)
    }
}

impl VmWriter<Infallible> {
    /// Constructs a writer to the kernel memory `[ptr, ptr + len)`, which
    /// must lie in kernel space unless it is empty.
    pub fn from_kernel_space(ptr: Vaddr, len: u64) -> (r: Self)
        requires
            ptr + len <= u64::MAX,
            len == 0 || KERNEL_BASE_VADDR <= ptr,
            len == 0 || ptr + len <= KERNEL_END_VADDR,
        ensures
            r.cursor_addr() == ptr,
            r.end_addr() == ptr + len,
    {
        VmWriter { cursor: ptr, end: ptr + len, phantom: PhantomData }
    }

    /// Writes all data of the reader until the reader has nothing left or
    /// the writer has no room left, and returns the number of bytes written.
    pub fn write(&mut self, reader: &mut VmReader<Infallible>, mem: &mut VirtMem) -> (r: u64)
        requires
            old(mem).present(old(reader).cursor_addr(), min_len(old(reader).remain_spec(), old(self).avail_spec())),
            old(mem).present(old(self).cursor_addr(), min_len(old(reader).remain_spec(), old(self).avail_spec())),
        ensures
            r == min_len(old(reader).remain_spec(), old(self).avail_spec()),
            final(reader).cursor_addr() == old(reader).cursor_addr() + r,
            final(reader).end_addr() == old(reader).end_addr(),
            final(self).cursor_addr() == old(self).cursor_addr() + r,
            final(self).end_addr() == old(self).end_addr(),
            old(mem).copied_into(*final(mem), old(self).cursor_addr(), old(reader).cursor_addr(), r as int),
    {
        reader.read(self, mem)
    }

    /// Writes a value given by its bytes.
    ///
    /// Fails with `InvalidArgs`, writing nothing, when there is less room
    /// than the value needs.
    pub fn write_val(&mut self, mem: &mut VirtMem, new_val: &[u8]) -> (r: Result<(), Error>)
        requires
            new_val@.len() > 0,
            new_val@.len() <= old(self).avail_spec() ==> old(mem).present(old(self).cursor_addr(), new_val@.len() as int),
        ensures
            old(self).avail_spec() < new_val@.len() ==> {
                &&& r == Err::<(), Error>(Error::InvalidArgs)
                &&& *final(self) == *old(self)
                &&& *final(mem) == *old(mem)
            },
            new_val@.len() <= old(self).avail_spec() ==> {
                &&& r is Ok
                &&& old(mem).filled_into(*final(mem), old(self).cursor_addr(), new_val@.len() as int, new_val@)
                &&& final(self).cursor_addr() == old(self).cursor_addr() + new_val@.len()
                &&& final(self).end_addr() == old(self).end_addr()
            },
    {
        proof { use_type_invariant(&*self); }
        let len = new_val.len() as u64;
        if self.avail() < len {
            return Err(Error::InvalidArgs);
        }
        fill_pattern(mem, self.cursor, len, new_val);
        self.cursor = self.cursor + len;
        Ok(())
    }

    /// Writes a value given by its bytes with a single store.
    ///
    /// Fails with `InvalidArgs`, writing nothing, when there is less room
    /// than the value needs. A cursor that is not aligned to the size of the
    /// value panics (excluded here).
    pub fn write_once(&mut self, mem: &mut VirtMem, new_val: &[u8]) -> (r: Result<(), Error>)
        requires
            new_val@.len() > 0,
            new_val@.len() <= old(self).avail_spec() ==> old(self).cursor_addr() % (new_val@.len() as int) == 0,
            new_val@.len() <= old(self).avail_spec() ==> old(mem).present(old(self).cursor_addr(), new_val@.len() as int),
        ensures
            old(self).avail_spec() < new_val@.len() ==> {
                &&& r == Err::<(), Error>(Error::InvalidArgs)
                &&& *final(self) == *old(self)
                &&& *final(mem) == *old(mem)
            },
            new_val@.len() <= old(self).avail_spec() ==> {
                &&& r is Ok
                &&& old(mem).filled_into(*final(mem), old(self).cursor_addr(), new_val@.len() as int, new_val@)
                &&& final(self).cursor_addr() == old(self).cursor_addr() + new_val@.len()
                &&& final(self).end_addr() == old(self).end_addr()
            },
    {
        self.write_val(mem, new_val)
    }

    /// Fills the room left with copies of `value`, given by its bytes, and
    /// returns the number of copies written.
    ///
    /// Room that is not a multiple of the size of the value panics
    /// (excluded here).
    pub fn fill(&mut self, mem: &mut VirtMem, value: &[u8]) -> (r: u64)
        requires
            value@.len() > 0,
            old(self).avail_spec() % (value@.len() as int) == 0,
            old(mem).present(old(self).cursor_addr(), old(self).avail_spec()),
        ensures
            r == old(self).avail_spec() / (value@.len() as int),
            old(mem).filled_into(*final(mem), old(self).cursor_addr(), old(self).avail_spec(), value@),
            final(self).cursor_addr() == old(self).end_addr(),
            final(self).end_addr() == old(self).end_addr(),
    {
        proof { use_type_invariant(&*self); }
        let avail = self.avail();
        let written_num = avail / (value.len() as u64);
        fill_pattern(mem, self.cursor, avail, value);
        self.cursor = self.end;
        written_num
    }

    /// Converts to a fallible writer of the same range.
    pub fn to_fallible(self) -> (r: VmWriter<Fallible>)
        ensures
            r.cursor_addr() == self.cursor_addr(),
            r.end_addr() == self.end_addr(),
    {
        proof { use_type_invariant(&self); }
        VmWriter { cursor: self.cursor, end: self.end, phantom: PhantomData }
    }
}

impl VmWriter<Fallible> {
    /// Constructs a writer to the user memory `[ptr, ptr + len)`, which must
    /// lie below the end of user space.
    pub fn from_user_space(ptr: Vaddr, len: u64) -> (r: Self)
        requires
            ptr + len <= MAX_USERSPACE_VADDR,
        ensures
            r.cursor_addr() == ptr,
            r.end_addr() == ptr + len,
    {
        VmWriter { cursor: ptr, end: ptr + len, phantom: PhantomData }
    }

    /// Writes a value given by its bytes.
    ///
    /// Fails with `InvalidArgs`, writing nothing, when there is less room
    /// than the value needs, and with `PageFault` when one of its bytes
    /// faults: the bytes before it are then written, and the cursor stays
    /// where it was.
    pub fn write_val(&mut self, mem: &mut VirtMem, new_val: &[u8]) -> (r: Result<(), Error>)
        ensures
            old(self).avail_spec() < new_val@.len() ==> {
                &&& r == Err::<(), Error>(Error::InvalidArgs)
                &&& *final(mem) == *old(mem)
            },
            r is Err ==> *final(self) == *old(self),
            new_val@.len() <= old(self).avail_spec() ==> exists|k: int| {
                &&& present_prefix(*old(mem), old(self).cursor_addr(), new_val@.len() as int, k)
                &&& old(mem).filled_into(*final(mem), old(self).cursor_addr(), k, new_val@)
                &&& (r is Ok <==> k == new_val@.len())
                &&& (r is Err ==> r == Err::<(), Error>(Error::PageFault))
            },
            r is Ok ==> final(self).cursor_addr() == old(self).cursor_addr() + new_val@.len()
                && final(self).end_addr() == old(self).end_addr(),
    {
        proof { use_type_invariant(&*self); }
        let len = new_val.len() as u64;
        if self.avail() < len {
            return Err(Error::InvalidArgs);
        }
        if len == 0 {
            proof {
                assert(old(mem).filled_into(*mem, self.cursor as int, 0, new_val@));
                assert(present_prefix(*old(mem), self.cursor as int, 0, 0));
            }
            return Ok(());
        }
        let k = present_len(mem, self.cursor, len);
        fill_pattern(mem, self.cursor, k, new_val);
        if k < len {
            return Err(Error::PageFault);
        }
        self.cursor = self.cursor + len;
        Ok(())
    }

    /// Writes `len` zeros, or as many as there is room for; a byte that
    /// faults stops the fill. Returns the number of bytes set, which is also
    /// how far the cursor advances; `PageFault` comes with it when a byte
    /// faulted.
    pub fn fill_zeros(&mut self, mem: &mut VirtMem, len: u64) -> (r: Result<u64, (Error, u64)>)
        ensures
            ({
                let n = min_len(old(self).avail_spec(), len as int);
                let k: int = match r { Ok(c) => c as int, Err((_, c)) => c as int };
                &&& present_prefix(*old(mem), old(self).cursor_addr(), n, k)
                &&& r is Ok <==> k == n
                &&& r matches Err((e, _)) ==> e == Error::PageFault
                &&& old(mem).filled_into(*final(mem), old(self).cursor_addr(), k, seq![0u8])
                &&& final(self).cursor_addr() == old(self).cursor_addr() + k
                &&& final(self).end_addr() == old(self).end_addr()
            }),
    {
        proof { use_type_invariant(&*self); }
        let avail = self.avail();
        let len_to_set = if avail <= len { avail } else { len };
        let zero: [u8; 1] = [0u8];
        let k = present_len(mem, self.cursor, len_to_set);
        fill_pattern(mem, self.cursor, k, zero.as_slice());
        proof {
            assert(zero@ =~= seq![0u8]);
        }
        self.cursor = self.cursor + k;
        if k < len_to_set {
            Err((Error::PageFault, k))
        } else {
            Ok(len_to_set)
        }
    }
}

/// Reads from a reader into a writer where at least one of them may fault.
pub trait FallibleVmRead<F> {
    /// Reads all data into the writer until the reader has nothing left,
    /// the writer has no room left, or a byte of either faults. Returns the
    /// number of bytes read, with `PageFault` when a byte faulted.
    fn read_fallible(&mut self, writer: &mut VmWriter<F>, mem: &mut VirtMem) -> Result<u64, (Error, u64)>;
}

/// Writes from a reader into a writer where at least one of them may fault.
pub trait FallibleVmWrite<F> {
    /// Writes all data of the reader until the reader has nothing left, the
    /// writer has no room left, or a byte of either faults. Returns the
    /// number of bytes written, with `PageFault` when a byte faulted.
    fn write_fallible(&mut self, reader: &mut VmReader<F>, mem: &mut VirtMem) -> Result<u64, (Error, u64)>;
}

/// The outcome of a copy between a reader and a writer that stops at the
/// first byte that faults: `r` reports how many bytes were copied.
pub open spec fn copied_until_fault<F1, F2>(
    reader0: VmReader<F1>,
    reader1: VmReader<F1>,
    writer0: VmWriter<F2>,
    writer1: VmWriter<F2>,
    mem0: VirtMem,
    mem1: VirtMem,
    r: Result<u64, (Error, u64)>,
) -> bool {
    let n = min_len(reader0.remain_spec(), writer0.avail_spec());
    let k: int = match r { Ok(c) => c as int, Err((_, c)) => c as int };
    &&& accessible_prefix(mem0, writer0.cursor_addr(), reader0.cursor_addr(), n, k)
    &&& r is Ok <==> k == n
    &&& r matches Err((e, _)) ==> e == Error::PageFault
    &&& reader1.cursor_addr() == reader0.cursor_addr() + k
    &&& reader1.end_addr() == reader0.end_addr()
    &&& writer1.cursor_addr() == writer0.cursor_addr() + k
    &&& writer1.end_addr() == writer0.end_addr()
    &&& mem0.copied_into(mem1, writer0.cursor_addr(), reader0.cursor_addr(), k)
}

impl FallibleVmRead<Infallible> for VmReader<Fallible> {
    fn read_fallible(&mut self, writer: &mut VmWriter<Infallible>, mem: &mut VirtMem) -> (r: Result<u64, (Error, u64)>)
        ensures
            copied_until_fault(*old(self), *final(self), *old(writer), *final(writer), *old(mem), *final(mem), r),
    {
        copy_until_fault(self, writer, mem)
    }
}

impl FallibleVmRead<Fallible> for VmReader<Fallible> {
    fn read_fallible(&mut self, writer: &mut VmWriter<Fallible>, mem: &mut VirtMem) -> (r: Result<u64, (Error, u64)>)
        ensures
            copied_until_fault(*old(self), *final(self), *old(writer), *final(writer), *old(mem), *final(mem), r),
    {
        copy_until_fault(self, writer, mem)
    }
}

impl FallibleVmRead<Fallible> for VmReader<Infallible> {
    fn read_fallible(&mut self, writer: &mut VmWriter<Fallible>, mem: &mut VirtMem) -> (r: Result<u64, (Error, u64)>)
        ensures
            copied_until_fault(*old(self), *final(self), *old(writer), *final(writer), *old(mem), *final(mem), r),
    {
        copy_until_fault(self, writer, mem)
    }
}

impl FallibleVmWrite<Infallible> for VmWriter<Fallible> {
    fn write_fallible(&mut self, reader: &mut VmReader<Infallible>, mem: &mut VirtMem) -> (r: Result<u64, (Error, u64)>)
        ensures
            copied_until_fault(*old(reader), *final(reader), *old(self), *final(self), *old(mem), *final(mem), r),
    {
        copy_until_fault(reader, self, mem)
    }
}

impl FallibleVmWrite<Fallible> for VmWriter<Fallible> {
    fn write_fallible(&mut self, reader: &mut VmReader<Fallible>, mem: &mut VirtMem) -> (r: Result<u64, (Error, u64)>)
        ensures
            copied_until_fault(*old(reader), *final(reader), *old(self), *final(self), *old(mem), *final(mem), r),
    {
        copy_until_fault(reader, self, mem)
    }
}

impl FallibleVmWrite<Fallible> for VmWriter<Infallible> {
    fn write_fallible(&mut self, reader: &mut VmReader<Fallible>, mem: &mut VirtMem) -> (r: Result<u64, (Error, u64)>)
        ensures
            copied_until_fault(*old(reader), *final(reader), *old(self), *final(self), *old(mem), *final(mem), r),
    {
        copy_until_fault(reader, self, mem)
    }
}

/// A marker for plain-old-data types that one instruction can load or
/// store: the primitive integers no wider than a machine word.
pub trait PodOnce: Copy {}

impl PodOnce for u8 {}
impl PodOnce for u16 {}
impl PodOnce for u32 {}
impl PodOnce for u64 {}
impl PodOnce for usize {}
impl PodOnce for i8 {}
impl PodOnce for i16 {}
impl PodOnce for i32 {}
impl PodOnce for i64 {}
impl PodOnce for isize {}

/// VM objects whose `PodOnce` values can be read and written with single,
/// non-tearing loads and stores.
pub trait VmIoOnce {
    /// Reads a `PodOnce` value at `offset` with one load.
    fn read_once<T: PodOnce>(&self, offset: usize) -> Result<T, Error>;

    /// Writes a `PodOnce` value at `offset` with one store.
    fn write_once<T: PodOnce>(&self, offset: usize, new_val: &T) -> Result<(), Error>;
}

/// What is written is read back: after a writer wrote `bytes` at `dst`,
/// the bytes that a reader reads from `dst` (as `read_val` reports them)
/// are `bytes`.
pub proof fn lemma_written_bytes_read_back(m0: VirtMem, m1: VirtMem, dst: int, bytes: Seq<u8>, read: Seq<u8>)
    requires
        bytes.len() > 0,
        m0.filled_into(m1, dst, bytes.len() as int, bytes),
        read.len() == bytes.len(),
        forall|j: int| 0 <= j < read.len() ==> Some(#[trigger] read[j]) == m1.byte(dst + j),
    ensures
        read == bytes,
{
    assert forall|j: int| 0 <= j < read.len() implies read[j] == bytes[j] by {
        assert(m1.byte(dst + j) == Some(bytes[(dst + j - dst) % (bytes.len() as int)]));
        vstd::arithmetic::div_mod::lemma_small_mod(j as nat, bytes.len());
    }
    assert(read =~= bytes);
}

/// A copy moves the bytes: after a reader's `n` bytes at `src` were copied
/// to a writer at `dst`, the bytes at `dst` are those that were at `src`.
pub proof fn lemma_copied_bytes_arrive(m0: VirtMem, m1: VirtMem, dst: int, src: int, n: int)
    requires
        m0.copied_into(m1, dst, src, n),
    ensures
        forall|j: int| 0 <= j < n ==> #[trigger] m1.byte(dst + j) == m0.byte(src + j),
{
    assert forall|j: int| 0 <= j < n implies #[trigger] m1.byte(dst + j) == m0.byte(src + j) by {
        assert(m1.byte(dst + j) == m0.byte(src + (dst + j - dst)));
    }
}

} // verus!
