//! The flags of a page-table entry.

use vstd::prelude::*;

verus! {

/// The flag byte of a page-table entry: Valid, Readable, Writable,
/// Executable, User, Global, Accessed and Dirty, from bit 0 upward.
///
/// Every bit of the byte is a flag, so every value of the type is a set of
/// flags and no value holds anything else.
#[derive(Clone, Copy, Debug, PartialEq, Eq, Structural)]
pub struct PTEFlags(pub u8);

impl PTEFlags {
    /// No flag.
    #[verifier::allow_in_spec]
    pub fn empty() -> PTEFlags
        returns
            PTEFlags(0x00),
    {
        PTEFlags(0x00)
    }

    /// Every flag.
    #[verifier::allow_in_spec]
    pub fn all() -> PTEFlags
        returns
            PTEFlags(0xff),
    {
        PTEFlags(0xff)
    }

    /// Valid: the entry is in use.
    #[verifier::allow_in_spec]
    pub fn v() -> PTEFlags
        returns
            PTEFlags(0x01),
    {
        PTEFlags(0x01)
    }

    /// Readable.
    #[verifier::allow_in_spec]
    pub fn r() -> PTEFlags
        returns
            PTEFlags(0x02),
    {
        PTEFlags(0x02)
    }

    /// Writable.
    #[verifier::allow_in_spec]
    pub fn w() -> PTEFlags
        returns
            PTEFlags(0x04),
    {
        PTEFlags(0x04)
    }

    /// Executable.
    #[verifier::allow_in_spec]
    pub fn x() -> PTEFlags
        returns
            PTEFlags(0x08),
    {
        PTEFlags(0x08)
    }

    /// User accessible.
    #[verifier::allow_in_spec]
    pub fn u() -> PTEFlags
        returns
            PTEFlags(0x10),
    {
        PTEFlags(0x10)
    }

    /// Global.
    #[verifier::allow_in_spec]
    pub fn g() -> PTEFlags
        returns
            PTEFlags(0x20),
    {
        PTEFlags(0x20)
    }

    /// Accessed.
    #[verifier::allow_in_spec]
    pub fn a() -> PTEFlags
        returns
            PTEFlags(0x40),
    {
        PTEFlags(0x40)
    }

    /// Dirty.
    #[verifier::allow_in_spec]
    pub fn d() -> PTEFlags
        returns
            PTEFlags(0x80),
    {
        PTEFlags(0x80)
    }

    /// Readable and writable.
    #[verifier::allow_in_spec]
    pub fn rw() -> PTEFlags
        returns
            PTEFlags(0x06),
    {
        PTEFlags(0x06)
    }

    /// Readable and executable.
    #[verifier::allow_in_spec]
    pub fn rx() -> PTEFlags
        returns
            PTEFlags(0x0a),
    {
        PTEFlags(0x0a)
    }

    /// Readable, writable and executable.
    #[verifier::allow_in_spec]
    pub fn rwx() -> PTEFlags
        returns
            PTEFlags(0x0e),
    {
        PTEFlags(0x0e)
    }

    /// The flags as the low byte of a machine word.
    #[verifier::allow_in_spec]
    pub fn bits(&self) -> u64
        returns
            self.0 as u64,
    {
        self.0 as u64
    }

    /// The flags held in the low byte of `bits`; the higher bits are dropped.
    #[verifier::allow_in_spec]
    pub fn from_bits_truncate(bits: u64) -> PTEFlags
        returns
            PTEFlags((bits & 0xff) as u8),
    {
        PTEFlags((bits & 0xff) as u8)
    }

    /// Whether every flag of `other` is in `self`.
    #[verifier::allow_in_spec]
    pub fn contains(&self, other: PTEFlags) -> bool
        returns
            self.0 & other.0 == other.0,
    {
        self.0 & other.0 == other.0
    }

    /// The flags of `self` together with those of `other`.
    #[verifier::allow_in_spec]
    pub fn union(self, other: PTEFlags) -> PTEFlags
        returns
            PTEFlags(self.0 | other.0),
    {
        PTEFlags(self.0 | other.0)
    }

    /// A set of flags read back from its own bits is the same set.
    pub proof fn lemma_bits_round_trip(self)
        ensures
            self.bits() <= 0xff,
            PTEFlags::from_bits_truncate(self.bits()) == self,
    {
        let b = self.0;
        assert(((b as u64) & 0xff) as u8 == b) by (bit_vector);
    }

    /// A union holds each of its two parts and whatever either part holds;
    /// it does not depend on the order of the parts, and the empty set adds
    /// nothing.
    pub proof fn lemma_union(self, other: PTEFlags, flag: PTEFlags)
        ensures
            self.union(other).contains(self),
            self.union(other).contains(other),
            self.contains(flag) || other.contains(flag) ==> self.union(other).contains(flag),
            self.union(other) == other.union(self),
            self.union(PTEFlags::empty()) == self,
    {
        let a = self.0;
        let b = other.0;
        let f = flag.0;
        assert((a | b) & a == a && (a | b) & b == b && (a | b) == (b | a) && (a | 0u8) == a)
            by (bit_vector);
        assert((a & f == f || b & f == f) ==> (a | b) & f == f) by (bit_vector);
    }
}

impl core::ops::BitOr for PTEFlags {
    type Output = PTEFlags;

    fn bitor(self, other: PTEFlags) -> (f: PTEFlags) {
        PTEFlags(self.0 | other.0)
    }
}

impl vstd::std_specs::ops::BitOrSpecImpl for PTEFlags {
    open spec fn obeys_bitor_spec() -> bool {
        true
    }

    open spec fn bitor_req(self, other: PTEFlags) -> bool {
        true
    }

    open spec fn bitor_spec(self, other: PTEFlags) -> PTEFlags {
        self.union(other)
    }
}

} // verus!
