//! The table of 512 entries and the index of an address in it.

use vstd::prelude::*;
use crate::entry::Entry;

verus! {

/// Highest level of the tree, that of the root table. Level 0 holds the
/// leaves.
pub const ROOT_LEVEL: usize = 3;

/// One node of the translation tree: 512 entries, filling exactly one page.
pub struct Table(pub [Entry; 512]);

impl View for Table {
    type V = Seq<Entry>;

    open spec fn view(&self) -> Seq<Entry> {
        self.0@
    }
}

impl Table {
    /// The slot of a table of `level` that the guest address selects: the
    /// nine bits of the address from bit `12 + 9 * level` upward.
    pub open spec fn index_of(guest_paddr: u64, level: usize) -> int {
        ((guest_paddr >> ((12 + 9 * level) as u64)) & 0x1ff) as int
    }

    /// A slot is one of the 512 of a table.
    pub proof fn lemma_index_of(guest_paddr: u64, level: usize)
        requires
            level <= ROOT_LEVEL,
        ensures
            0 <= Self::index_of(guest_paddr, level) < 512,
    {
        let shift = (12 + 9 * level) as u64;
        assert((guest_paddr >> shift) & 0x1ff < 512) by (bit_vector);
    }

    /// A fresh table: 512 zero entries, none of them valid.
    pub fn allocate() -> (t: Table)
        ensures
            t@.len() == 512,
            forall|i: int| 0 <= i < 512 ==> t@[i] == Entry(0),
    {
        Table([Entry(0); 512])
    }

    fn slot(guest_paddr: u64, level: usize) -> (index: usize)
        requires
            level <= ROOT_LEVEL,
        ensures
            index == Self::index_of(guest_paddr, level),
            index < 512,
    {
        let shift = 12 + 9 * level;
        let index = (guest_paddr >> shift) & 0x1ff;
        assert(index < 512) by (bit_vector)
            requires
                index == (guest_paddr >> (shift as u64)) & 0x1ff,
        ;
        index as usize
    }

    /// The entry that the guest address selects in a table of `level`.
    pub fn entry_at(&self, guest_paddr: u64, level: usize) -> (e: Entry)
        requires
            level <= ROOT_LEVEL,
        ensures
            e == self@[Self::index_of(guest_paddr, level)],
    {
        self.0[Self::slot(guest_paddr, level)]
    }

    /// The entry that the guest address selects in a table of `level`, to
    /// read or to overwrite. The other entries stay as they are.
    pub fn entry_by_addr(&mut self, guest_paddr: u64, level: usize) -> (e: &mut Entry)
        requires
            level <= ROOT_LEVEL,
        ensures
            *e == old(self)@[Self::index_of(guest_paddr, level)],
            final(self)@ == old(self)@.update(Self::index_of(guest_paddr, level), *final(e)),
    {
        &mut self.0[Self::slot(guest_paddr, level)]
    }
}

} // verus!
