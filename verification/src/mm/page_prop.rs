//! Definitions of page mapping properties.

use vstd::prelude::*;

verus! {

/// The properties of a mapped virtual memory page.
#[derive(Clone, Copy, Debug, PartialEq, Eq, Structural)]
pub struct PageProperty {
    /// The flags associated with the page.
    pub flags: PageFlags,
    /// The flags that only OSTD may set.
    pub priv_flags: PrivilegedPageFlags,
}

impl PageProperty {
    /// Creates a new `PageProperty` for the user with the given flags.
    pub fn new(flags: PageFlags) -> (r: Self)
        ensures
            r.flags == flags,
            r.priv_flags == PrivilegedPageFlags::user_spec(),
    {
        Self { flags, priv_flags: PrivilegedPageFlags::USER() }
    }

    /// Creates a page property that implies an invalid page without mappings.
    pub fn new_absent() -> (r: Self)
        ensures
            r.flags.bits == 0,
            r.priv_flags.bits == 0,
    {
        Self { flags: PageFlags::empty(), priv_flags: PrivilegedPageFlags::empty() }
    }
}

/// A type to control the cacheability of the main memory.
///
/// The type follows the definition of the AMD64 manual.
#[derive(Clone, Copy, Debug, PartialEq, Eq, Structural)]
pub enum CachePolicy {
    /// Uncacheable (UC).
    Uncacheable,
    /// Write-Combining (WC).
    WriteCombining,
    /// Write-Protect (WP).
    WriteProtected,
    /// Writethrough (WT).
    Writethrough,
    /// Writeback (WB): "normal" memory.
    Writeback,
}

/// Page protection permissions and access status, as a set of bits.
#[derive(Clone, Copy, Debug, PartialEq, Eq, Structural)]
pub struct PageFlags {
    pub bits: u8,
}

#[allow(non_snake_case)]
impl PageFlags {
    /// The empty set of flags.
    pub fn empty() -> (r: Self)
        ensures
            r.bits == 0,
    {
        Self { bits: 0 }
    }

    /// The raw bits.
    pub fn bits(&self) -> (r: u8)
        ensures
            r == self.bits,
    {
        self.bits
    }

    /// Readable.
    pub fn R() -> (r: Self)
        ensures
            r.bits == 0b00000001,
    {
        Self { bits: 0b00000001 }
    }

    /// Writable.
    pub fn W() -> (r: Self)
        ensures
            r.bits == 0b00000010,
    {
        Self { bits: 0b00000010 }
    }

    /// Executable.
    pub fn X() -> (r: Self)
        ensures
            r.bits == 0b00000100,
    {
        Self { bits: 0b00000100 }
    }

    /// Readable + writable.
    pub fn RW() -> (r: Self)
        ensures
            r.bits == 0b00000011,
    {
        Self { bits: 0b00000011 }
    }

    /// Readable + executable.
    pub fn RX() -> (r: Self)
        ensures
            r.bits == 0b00000101,
    {
        Self { bits: 0b00000101 }
    }

    /// Readable + writable + executable.
    pub fn RWX() -> (r: Self)
        ensures
            r.bits == 0b00000111,
    {
        Self { bits: 0b00000111 }
    }

    /// Whether the memory page has been read or written.
    pub fn ACCESSED() -> (r: Self)
        ensures
            r.bits == 0b00001000,
    {
        Self { bits: 0b00001000 }
    }

    /// Whether the memory page has been written.
    pub fn DIRTY() -> (r: Self)
        ensures
            r.bits == 0b00010000,
    {
        Self { bits: 0b00010000 }
    }

    /// The first bit available for software use.
    pub fn AVAIL1() -> (r: Self)
        ensures
            r.bits == 0b01000000,
    {
        Self { bits: 0b01000000 }
    }

    /// The second bit available for software use.
    pub fn AVAIL2() -> (r: Self)
        ensures
            r.bits == 0b10000000,
    {
        Self { bits: 0b10000000 }
    }

    /// Whether every flag of `other` is set in `self`.
    pub open spec fn spec_contains(self, other: Self) -> bool {
        self.bits & other.bits == other.bits
    }

    /// Whether every flag of `other` is set in `self`.
    pub fn contains(&self, other: Self) -> (r: bool)
        ensures
            r == self.spec_contains(other),
    {
        (self.bits & other.bits) == other.bits
    }

    /// The flags set in either operand (`|`).
    pub fn union(self, other: Self) -> (r: Self)
        ensures
            r.bits == self.bits | other.bits,
            r.spec_contains(self),
            r.spec_contains(other),
    {
        let r = Self { bits: self.bits | other.bits };
        proof {
            let (a, b) = (self.bits, other.bits);
            assert((a | b) & a == a && (a | b) & b == b) by (bit_vector);
        }
        r
    }

    /// The flags of `self` that are not set in `other` (`-`).
    pub fn difference(self, other: Self) -> (r: Self)
        ensures
            r.bits == self.bits & !other.bits,
            self.spec_contains(r),
            other.bits != 0 ==> !r.spec_contains(other),
    {
        let r = Self { bits: self.bits & !other.bits };
        proof {
            let (a, b) = (self.bits, other.bits);
            assert(a & (a & !b) == (a & !b)) by (bit_vector);
            assert(b != 0 ==> (a & !b) & b != b) by (bit_vector);
        }
        r
    }
}

/// Page properties that only OSTD may set, as a set of bits.
#[derive(Clone, Copy, Debug, PartialEq, Eq, Structural)]
pub struct PrivilegedPageFlags {
    pub bits: u8,
}

#[allow(non_snake_case)]
impl PrivilegedPageFlags {
    pub open spec fn user_spec() -> Self {
        PrivilegedPageFlags { bits: 0b00000001 }
    }

    /// No privileged flag.
    pub fn empty() -> (r: Self)
        ensures
            r.bits == 0,
    {
        Self { bits: 0 }
    }

    /// The raw bits.
    pub fn bits(&self) -> (r: u8)
        ensures
            r == self.bits,
    {
        self.bits
    }

    /// Accessible from user mode.
    pub fn USER() -> (r: Self)
        ensures
            r == Self::user_spec(),
    {
        Self { bits: 0b00000001 }
    }

    /// Global page that won't be evicted from TLB with normal TLB flush.
    pub fn GLOBAL() -> (r: Self)
        ensures
            r.bits == 0b00000010,
    {
        Self { bits: 0b00000010 }
    }
}

} // verus!
