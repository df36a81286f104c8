//! The page-table entry and its encoding.

use vstd::prelude::*;
use crate::flags::PTEFlags;

verus! {

/// Bytes in a page, the unit of translation and of allocation.
pub const PAGE_SIZE: u64 = 4096;

/// Width of the offset of a byte within its page.
pub const PPN_SHIFT: u64 = 12;

/// Bit of an entry at which the physical page number begins.
pub const PTE_PPN_SHIFT: u64 = 10;

/// `paddr` without its offset within the page.
pub open spec fn page_base(paddr: u64) -> u64 {
    (paddr - paddr % 4096) as u64
}

/// One page-table entry as the hardware reads it: the physical page number
/// from bit 10 upward, the flag byte in bits 0 to 7.
///
/// A leaf entry holds the host page that a guest page is mapped to and the
/// permissions of the mapping. An entry of a higher level holds the address
/// of the table below it and the Valid flag alone. An entry without the Valid
/// flag means nothing.
#[derive(Clone, Copy, Debug, PartialEq, Eq, Structural)]
pub struct Entry(pub u64);

impl Entry {
    /// The entry for the page of `paddr` with `flags`. The offset of `paddr`
    /// within its page is dropped.
    #[verifier::allow_in_spec]
    pub fn new(paddr: u64, flags: PTEFlags) -> Entry
        returns
            Entry(((paddr >> 12) << 10) | flags.bits()),
    {
        let ppn = paddr >> PPN_SHIFT;
        Entry((ppn << PTE_PPN_SHIFT) | flags.bits())
    }

    /// Whether the Valid flag is set.
    #[verifier::allow_in_spec]
    pub fn is_valid(&self) -> bool
        returns
            self.flags().contains(PTEFlags::v()),
    {
        self.flags().contains(PTEFlags::v())
    }

    /// The address of the page that the entry names, whatever its flags.
    #[verifier::allow_in_spec]
    pub fn paddr(&self) -> u64
        returns
            (self.0 >> 10) << 12,
    {
        (self.0 >> PTE_PPN_SHIFT) << PPN_SHIFT
    }

    /// The flag byte, without the address.
    #[verifier::allow_in_spec]
    pub fn flags(&self) -> PTEFlags
        returns
            PTEFlags::from_bits_truncate(self.0 & 0xff),
    {
        PTEFlags::from_bits_truncate(self.0 & 0xff)
    }

    /// An entry gives back the flags it was made with, and the address it was
    /// made with up to the offset within the page. It is valid exactly when
    /// its flags hold Valid.
    pub proof fn lemma_new(paddr: u64, flags: PTEFlags)
        ensures
            Entry::new(paddr, flags).flags() == flags,
            Entry::new(paddr, flags).paddr() == page_base(paddr),
            paddr % 4096 == 0 ==> Entry::new(paddr, flags).paddr() == paddr,
            Entry::new(paddr, flags).is_valid() <==> flags.contains(PTEFlags::v()),
    {
        let f = flags.0;
        let e = ((paddr >> 12) << 10) | (f as u64);
        assert((((e & 0xff) & 0xff) as u8) == f) by (bit_vector)
            requires
                e == ((paddr >> 12) << 10) | (f as u64),
        ;
        assert((e >> 10) << 12 == paddr - paddr % 4096) by (bit_vector)
            requires
                e == ((paddr >> 12) << 10) | (f as u64),
        ;
    }

    /// The entry that points at a table is valid and names the table's page.
    pub proof fn lemma_new_valid(paddr: u64)
        requires
            paddr % 4096 == 0,
        ensures
            Entry::new(paddr, PTEFlags::v()).is_valid(),
            Entry::new(paddr, PTEFlags::v()).paddr() == paddr,
    {
        Entry::lemma_new(paddr, PTEFlags::v());
        assert(0x01u8 & 0x01u8 == 0x01u8) by (bit_vector);
    }

    /// The address of an entry is the start of a page.
    pub proof fn lemma_paddr_aligned(self)
        ensures
            self.paddr() % 4096 == 0,
    {
        let e = self.0;
        assert(((e >> 10) << 12) % 4096 == 0) by (bit_vector);
    }

    /// An entry is valid exactly when its lowest bit is set; the zero entry
    /// is not.
    pub proof fn lemma_valid_bit(self)
        ensures
            self.is_valid() <==> self.0 & 1 == 1,
            !Entry(0).is_valid(),
    {
        let e = self.0;
        assert((((e & 0xff) & 0xff) as u8) & 0x01 == 0x01 <==> e & 1 == 1) by (bit_vector);
        assert((((0u64 & 0xff) & 0xff) as u8) & 0x01 != 0x01) by (bit_vector);
    }
}

} // verus!
