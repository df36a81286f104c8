//! The second-stage translation tree of a guest: what it means, how a page
//! is mapped, and the value that activates it.

use vstd::prelude::*;
use crate::allocator::{pages_for, PageAllocator};
use crate::entry::Entry;
use crate::flags::PTEFlags;
use crate::table::Table;

verus! {

/// Why a mapping was not made, or a tree not built.
#[derive(Clone, Copy, Debug, PartialEq, Eq, Structural)]
pub enum MapError {
    /// The guest page is mapped already; a mapping is written once.
    AlreadyMapped,
    /// The tree has no table left for a level that the mapping needs.
    OutOfTables,
    /// The allocator does not hold the pages for the tables of the tree.
    OutOfMemory,
}

/// The translation mode that the activation value selects: four levels of
/// 9-bit indices under a 4 KiB page.
pub const HGATP_MODE: u64 = 9;

/// The guest page that holds `guest_paddr`: the 36 bits of the address that a
/// walk reads, without the offset within the page.
pub open spec fn guest_page(guest_paddr: u64) -> u64 {
    guest_paddr & 0xffff_ffff_f000
}

/// How many of the three indices above the leaf level two guest addresses
/// have in common, counted from the root downward: so many tables below the
/// root do their walks share.
pub open spec fn shared_levels(a: u64, b: u64) -> nat {
    if Table::index_of(a, 3) != Table::index_of(b, 3) {
        0
    } else if Table::index_of(a, 2) != Table::index_of(b, 2) {
        1
    } else if Table::index_of(a, 1) != Table::index_of(b, 1) {
        2
    } else {
        3
    }
}

/// Two addresses lie in the same guest page exactly when a walk reads the
/// same four indices from both. An address and its page read the same.
pub proof fn lemma_guest_page(a: u64, b: u64)
    ensures
        guest_page(guest_page(a)) == guest_page(a),
        forall|level: usize|
            level <= 3 ==> Table::index_of(guest_page(a), level) == Table::index_of(a, level),
        guest_page(a) == guest_page(b) <==> shared_levels(a, b) == 3 && Table::index_of(a, 0)
            == Table::index_of(b, 0),
{
    assert((a & 0xffff_ffff_f000) & 0xffff_ffff_f000 == a & 0xffff_ffff_f000) by (bit_vector);
    assert forall|level: usize| level <= 3 implies Table::index_of(guest_page(a), level)
        == Table::index_of(a, level) by {
        let shift = (12 + 9 * level) as u64;
        assert(shift == 12 || shift == 21 || shift == 30 || shift == 39);
        assert((shift == 12 || shift == 21 || shift == 30 || shift == 39) ==> ((a
            & 0xffff_ffff_f000) >> shift) & 0x1ff == (a >> shift) & 0x1ff) by (bit_vector);
    }
    assert((a & 0xffff_ffff_f000 == b & 0xffff_ffff_f000) <==> ((a >> 39) & 0x1ff == (b >> 39)
        & 0x1ff && (a >> 30) & 0x1ff == (b >> 30) & 0x1ff && (a >> 21) & 0x1ff == (b >> 21) & 0x1ff
        && (a >> 12) & 0x1ff == (b >> 12) & 0x1ff)) by (bit_vector);
}

/// What a tree of tables means: which guest pages are mapped and to what, and
/// how much of the tree stands.
#[verifier::ext_equal]
pub struct PageTableModel {
    /// The address of the root table.
    pub root: u64,
    /// The number of tables that the tree may hold, the root among them.
    pub capacity: nat,
    /// The number of tables that it holds.
    pub tables: nat,
    /// For each guest page, how many of the three tables below the root
    /// stand on its walk.
    pub depth: Map<u64, nat>,
    /// The leaf entry of each mapped guest page.
    pub mappings: Map<u64, Entry>,
}

impl PageTableModel {
    /// The leaf entry that a walk for `guest_paddr` ends in, where the page
    /// is mapped.
    pub open spec fn lookup(self, guest_paddr: u64) -> Option<Entry> {
        if self.mappings.contains_key(guest_page(guest_paddr)) {
            Some(self.mappings[guest_page(guest_paddr)])
        } else {
            None
        }
    }

    /// The value of the activation register for the tree: the mode in the
    /// top four bits, the page number of the root table below.
    pub open spec fn activation_value(self) -> u64 {
        (9u64 << 60) | (self.root >> 12)
    }

    /// The parts of the model agree: the tables are within the capacity, a
    /// depth is known for each guest page and is at most three, and a mapped
    /// page has a valid leaf under a full walk.
    pub open spec fn wf(self) -> bool {
        &&& 1 <= self.tables <= self.capacity
        &&& forall|page: u64| #[trigger] self.depth.contains_key(page) <==> guest_page(page) == page
        &&& forall|page: u64| self.depth.contains_key(page) ==> #[trigger] self.depth[page] <= 3
        &&& forall|page: u64| #[trigger]
            self.mappings.contains_key(page) ==> {
                &&& guest_page(page) == page
                &&& self.depth[page] == 3
                &&& self.mappings[page].is_valid()
            }
    }

    /// The number of tables that a mapping of `guest_paddr` has to add.
    pub open spec fn missing(self, guest_paddr: u64) -> nat {
        (3 - self.depth[guest_page(guest_paddr)]) as nat
    }

    /// The tree after `entry` was written as the leaf of `guest_paddr`, or
    /// why that cannot be done. The tables on the walk that were missing are
    /// added, and nothing else.
    pub open spec fn map(self, guest_paddr: u64, entry: Entry) -> Result<PageTableModel, MapError> {
        if self.mappings.contains_key(guest_page(guest_paddr)) {
            Err(MapError::AlreadyMapped)
        } else if self.tables + self.missing(guest_paddr) > self.capacity {
            Err(MapError::OutOfTables)
        } else {
            Ok(
                PageTableModel {
                    root: self.root,
                    capacity: self.capacity,
                    tables: self.tables + self.missing(guest_paddr),
                    depth: Map::new(
                        |page: u64| guest_page(page) == page,
                        |page: u64|
                            if shared_levels(page, guest_paddr) > self.depth[page] {
                                shared_levels(page, guest_paddr)
                            } else {
                                self.depth[page]
                            },
                    ),
                    mappings: self.mappings.insert(guest_page(guest_paddr), entry),
                },
            )
        }
    }
}

/// The tree after the requests were made one after another, each a guest
/// address and the leaf entry for its page. A request that cannot be met
/// leaves the tree as it was.
pub open spec fn map_each(model: PageTableModel, requests: Seq<(u64, Entry)>) -> PageTableModel
    decreases requests.len(),
{
    if requests.len() == 0 {
        model
    } else {
        let before = map_each(model, requests.drop_last());
        match before.map(requests.last().0, requests.last().1) {
            Ok(after) => after,
            Err(_) => before,
        }
    }
}

/// A mapping keeps the model sound.
pub proof fn lemma_map_wf(model: PageTableModel, guest_paddr: u64, entry: Entry)
    requires
        model.wf(),
        entry.is_valid(),
    ensures
        model.map(guest_paddr, entry) matches Ok(after) ==> after.wf(),
{
    lemma_guest_page(guest_paddr, guest_paddr);
    if let Ok(after) = model.map(guest_paddr, entry) {
        assert forall|page: u64| #[trigger] after.mappings.contains_key(page) implies guest_page(
            page,
        ) == page && after.depth[page] == 3 && after.mappings[page].is_valid() by {
            lemma_guest_page(page, guest_paddr);
        }
    }
}

/// Round trip: after a page-aligned host address was mapped at a guest
/// address, the walk for the guest address finds an entry with that host
/// address and with the flags asked for, Valid and User.
pub proof fn lemma_map_round_trip(
    model: PageTableModel,
    guest_paddr: u64,
    host_paddr: u64,
    flags: PTEFlags,
)
    requires
        host_paddr % 4096 == 0,
        model.map(
            guest_paddr,
            Entry::new(host_paddr, flags.union(PTEFlags::v()).union(PTEFlags::u())),
        ) is Ok,
    ensures
        ({
            let after = model.map(
                guest_paddr,
                Entry::new(host_paddr, flags.union(PTEFlags::v()).union(PTEFlags::u())),
            ).unwrap();
            &&& after.lookup(guest_paddr) is Some
            &&& after.lookup(guest_paddr).unwrap().paddr() == host_paddr
            &&& after.lookup(guest_paddr).unwrap().flags() == flags.union(PTEFlags::v()).union(
                PTEFlags::u(),
            )
            &&& after.lookup(guest_paddr).unwrap().is_valid()
        }),
{
    let leaf = flags.union(PTEFlags::v()).union(PTEFlags::u());
    Entry::lemma_new(host_paddr, leaf);
    flags.lemma_union(PTEFlags::v(), PTEFlags::v());
    flags.union(PTEFlags::v()).lemma_union(PTEFlags::u(), PTEFlags::v());
}

/// A mapping touches one page: the walk for an address of any other page
/// finds what it found before.
pub proof fn lemma_map_frame(model: PageTableModel, guest_paddr: u64, entry: Entry, other: u64)
    requires
        model.map(guest_paddr, entry) is Ok,
        guest_page(other) != guest_page(guest_paddr),
    ensures
        model.map(guest_paddr, entry).unwrap().lookup(other) == model.lookup(other),
{
}

/// Growth: in a tree in which nothing stands but the root, the first
/// mapping adds the three tables of its own walk and no other. The walk for
/// any page then gets as far as it shares the walk of the mapped page, and
/// the mapped page alone is mapped.
pub proof fn lemma_first_map(model: PageTableModel, guest_paddr: u64, entry: Entry)
    requires
        model.tables == 1,
        model.capacity >= 4,
        model.mappings == Map::<u64, Entry>::empty(),
        model.depth == Map::new(|page: u64| guest_page(page) == page, |page: u64| 0nat),
    ensures
        model.map(guest_paddr, entry) is Ok,
        model.map(guest_paddr, entry).unwrap().tables == 4,
        model.map(guest_paddr, entry).unwrap().mappings == Map::<u64, Entry>::empty().insert(
            guest_page(guest_paddr),
            entry,
        ),
        forall|page: u64|
            guest_page(page) == page ==> #[trigger] model.map(
                guest_paddr,
                entry,
            ).unwrap().depth[page] == shared_levels(page, guest_paddr),
{
    lemma_guest_page(guest_paddr, guest_paddr);
}

/// No second mapping: once a page is mapped, a mapping of any address of
/// that page fails, whatever the host address and the flags.
pub proof fn lemma_double_map(
    model: PageTableModel,
    guest_paddr: u64,
    entry: Entry,
    again: u64,
    other: Entry,
)
    requires
        model.map(guest_paddr, entry) is Ok,
        guest_page(again) == guest_page(guest_paddr),
    ensures
        model.map(guest_paddr, entry).unwrap().map(again, other) == Err::<
            PageTableModel,
            MapError,
        >(MapError::AlreadyMapped),
{
}

/// The activation value stays: whatever is mapped, and whether each
/// mapping is made or refused, the root table is where it was, and so the
/// value is the same.
pub proof fn lemma_activation_stable(model: PageTableModel, requests: Seq<(u64, Entry)>)
    ensures
        map_each(model, requests).root == model.root,
        map_each(model, requests).activation_value() == model.activation_value(),
    decreases requests.len(),
{
    if requests.len() > 0 {
        lemma_activation_stable(model, requests.drop_last());
    }
}

/// The activation value holds the mode in its top four bits and, for a root
/// below 2^56, the page number of the root in its low 44 bits.
pub proof fn lemma_activation_fields(model: PageTableModel)
    ensures
        model.activation_value() >> 60 == 9,
        model.root < 0x100_0000_0000_0000 ==> model.activation_value() & 0xfff_ffff_ffff
            == model.root >> 12,
{
    let root = model.root;
    assert(((9u64 << 60) | (root >> 12)) >> 60 == 9) by (bit_vector);
    assert(root < 0x100_0000_0000_0000 ==> ((9u64 << 60) | (root >> 12)) & 0xfff_ffff_ffff == root
        >> 12) by (bit_vector);
}

/// The slot of the table of `level` that the hardware reaches on its walk
/// for `guest_paddr`, where it gets that far. The tables lie in a pool from
/// `root` upward, one to a page; the walk starts in the root, which is of
/// level 3, reads in each table the entry that the address selects, and goes
/// on, where that entry is valid, in the table at the entry's address.
pub open spec fn walk_to(root: u64, pool: Seq<Seq<Entry>>, guest_paddr: u64, level: int) -> Option<
    int,
>
    decreases 3 - level,
{
    if level >= 3 {
        Some(0int)
    } else {
        match walk_to(root, pool, guest_paddr, level + 1) {
            Some(slot) => {
                let entry = pool[slot][Table::index_of(guest_paddr, (level + 1) as usize)];
                if entry.is_valid() {
                    Some((entry.paddr() - root) / 4096)
                } else {
                    None
                }
            },
            None => None,
        }
    }
}

/// The leaf entry that the hardware finds for `guest_paddr`, where its walk
/// gets to a leaf table and the entry there is valid.
pub open spec fn walk_leaf(root: u64, pool: Seq<Seq<Entry>>, guest_paddr: u64) -> Option<Entry> {
    match walk_to(root, pool, guest_paddr, 0) {
        Some(slot) => {
            let entry = pool[slot][Table::index_of(guest_paddr, 0)];
            if entry.is_valid() {
                Some(entry)
            } else {
                None
            }
        },
        None => None,
    }
}

/// How many of the three tables below the root the hardware reaches on its
/// walk for `guest_paddr`.
pub open spec fn walk_depth(root: u64, pool: Seq<Seq<Entry>>, guest_paddr: u64) -> nat {
    if walk_to(root, pool, guest_paddr, 2) is None {
        0
    } else if walk_to(root, pool, guest_paddr, 1) is None {
        1
    } else if walk_to(root, pool, guest_paddr, 0) is None {
        2
    } else {
        3
    }
}

/// The entry in `slot` at index `i` of the pool after a mapping of
/// `guest_paddr` whose walk goes through the tables `t2`, `t1` and `t0`
/// below the root: the leaf in the leaf table, above it the entries that
/// hold the address of the next table with Valid alone, elsewhere what the
/// pool held before, and zero in a table that is new.
pub open spec fn entry_after_map(
    before: Seq<Seq<Entry>>,
    root: u64,
    guest_paddr: u64,
    leaf: Entry,
    t2: int,
    t1: int,
    t0: int,
    slot: int,
    i: int,
) -> Entry {
    if slot == t0 && i == Table::index_of(guest_paddr, 0) {
        leaf
    } else if slot == t1 && i == Table::index_of(guest_paddr, 1) {
        Entry::new((root + 4096 * t0) as u64, PTEFlags::v())
    } else if slot == t2 && i == Table::index_of(guest_paddr, 2) {
        Entry::new((root + 4096 * t1) as u64, PTEFlags::v())
    } else if slot == 0 && i == Table::index_of(guest_paddr, 3) {
        Entry::new((root + 4096 * t2) as u64, PTEFlags::v())
    } else if slot < before.len() {
        before[slot][i]
    } else {
        Entry(0)
    }
}

/// What a mapping of `guest_paddr` does to the tables: the walk for the
/// address goes through three tables below the root, each another and none
/// the root, keeping those it went through before; and every entry of the
/// pool is what `entry_after_map` says, so that no entry off the walk is
/// touched and a new table holds nothing but its one entry on the walk.
pub open spec fn pool_mapped(
    before: Seq<Seq<Entry>>,
    after: Seq<Seq<Entry>>,
    root: u64,
    guest_paddr: u64,
    leaf: Entry,
) -> bool {
    let t2 = walk_to(root, after, guest_paddr, 2).unwrap();
    let t1 = walk_to(root, after, guest_paddr, 1).unwrap();
    let t0 = walk_to(root, after, guest_paddr, 0).unwrap();
    &&& before.len() <= after.len()
    &&& walk_to(root, after, guest_paddr, 2) is Some
    &&& walk_to(root, after, guest_paddr, 1) is Some
    &&& walk_to(root, after, guest_paddr, 0) is Some
    &&& 0 < t2 < after.len() && 0 < t1 < after.len() && 0 < t0 < after.len()
    &&& t2 != t1 && t1 != t0 && t2 != t0
    &&& forall|level: int|
        0 <= level <= 2 && (#[trigger] walk_to(root, before, guest_paddr, level)) is Some
            ==> walk_to(root, after, guest_paddr, level) == walk_to(
            root,
            before,
            guest_paddr,
            level,
        )
    &&& forall|slot: int, i: int|
        0 <= slot < after.len() && 0 <= i < 512 ==> #[trigger] after[slot][i] == entry_after_map(
            before,
            root,
            guest_paddr,
            leaf,
            t2,
            t1,
            t0,
            slot,
            i,
        )
}

/// Growth, told of the tables: in a tree whose root holds nothing, the
/// first mapping leaves four valid entries and no more, one in the root
/// and one in each of three tables that are new. Those above the leaf hold
/// Valid alone and the address of the table below; the fourth is the leaf.
/// Every other entry of the tree is zero.
pub proof fn lemma_first_map_pool(
    before: Seq<Seq<Entry>>,
    after: Seq<Seq<Entry>>,
    root: u64,
    guest_paddr: u64,
    leaf: Entry,
)
    requires
        before.len() == 1,
        forall|i: int| 0 <= i < 512 ==> #[trigger] before[0][i] == Entry(0),
        root % 4096 == 0,
        root + 4096 * after.len() <= u64::MAX,
        pool_mapped(before, after, root, guest_paddr, leaf),
    ensures
        ({
            let t2 = walk_to(root, after, guest_paddr, 2).unwrap();
            let t1 = walk_to(root, after, guest_paddr, 1).unwrap();
            let t0 = walk_to(root, after, guest_paddr, 0).unwrap();
            let e3 = after[0][Table::index_of(guest_paddr, 3)];
            let e2 = after[t2][Table::index_of(guest_paddr, 2)];
            let e1 = after[t1][Table::index_of(guest_paddr, 1)];
            &&& 1 <= t2 < after.len() && 1 <= t1 < after.len() && 1 <= t0 < after.len()
            &&& t2 != t1 && t1 != t0 && t2 != t0
            &&& e3.is_valid() && e3.flags() == PTEFlags::v() && e3.paddr() == root + 4096 * t2
            &&& e2.is_valid() && e2.flags() == PTEFlags::v() && e2.paddr() == root + 4096 * t1
            &&& e1.is_valid() && e1.flags() == PTEFlags::v() && e1.paddr() == root + 4096 * t0
            &&& after[t0][Table::index_of(guest_paddr, 0)] == leaf
            &&& forall|slot: int, i: int|
                0 <= slot < after.len() && 0 <= i < 512 && !(slot == 0 && i == Table::index_of(
                    guest_paddr,
                    3,
                )) && !(slot == t2 && i == Table::index_of(guest_paddr, 2)) && !(slot == t1 && i
                    == Table::index_of(guest_paddr, 1)) && !(slot == t0 && i == Table::index_of(
                    guest_paddr,
                    0,
                )) ==> #[trigger] after[slot][i] == Entry(0)
        }),
{
    let t2 = walk_to(root, after, guest_paddr, 2).unwrap();
    let t1 = walk_to(root, after, guest_paddr, 1).unwrap();
    let t0 = walk_to(root, after, guest_paddr, 0).unwrap();
    Table::lemma_index_of(guest_paddr, 0);
    Table::lemma_index_of(guest_paddr, 1);
    Table::lemma_index_of(guest_paddr, 2);
    Table::lemma_index_of(guest_paddr, 3);
    Entry::lemma_new((root + 4096 * t2) as u64, PTEFlags::v());
    Entry::lemma_new_valid((root + 4096 * t2) as u64);
    Entry::lemma_new((root + 4096 * t1) as u64, PTEFlags::v());
    Entry::lemma_new_valid((root + 4096 * t1) as u64);
    Entry::lemma_new((root + 4096 * t0) as u64, PTEFlags::v());
    Entry::lemma_new_valid((root + 4096 * t0) as u64);
    assert(after[0][Table::index_of(guest_paddr, 3)] == entry_after_map(
        before,
        root,
        guest_paddr,
        leaf,
        t2,
        t1,
        t0,
        0,
        Table::index_of(guest_paddr, 3),
    ));
    assert(after[t2][Table::index_of(guest_paddr, 2)] == entry_after_map(
        before,
        root,
        guest_paddr,
        leaf,
        t2,
        t1,
        t0,
        t2,
        Table::index_of(guest_paddr, 2),
    ));
    assert(after[t1][Table::index_of(guest_paddr, 1)] == entry_after_map(
        before,
        root,
        guest_paddr,
        leaf,
        t2,
        t1,
        t0,
        t1,
        Table::index_of(guest_paddr, 1),
    ));
    assert(after[t0][Table::index_of(guest_paddr, 0)] == entry_after_map(
        before,
        root,
        guest_paddr,
        leaf,
        t2,
        t1,
        t0,
        t0,
        Table::index_of(guest_paddr, 0),
    ));
}

/// The tree of tables that translates the addresses of one guest.
///
/// The tables stand in a pool of consecutive pages: the table in slot `i`
/// has the address of the pool plus `i` pages, and the root is in slot 0. An
/// entry of a level above the leaves holds the address of the table below
/// it, which no other entry holds.
pub struct GuestPageTable {
    base: u64,
    capacity: usize,
    tables: Vec<Table>,
    levels: Ghost<Seq<int>>,
    parents: Ghost<Seq<(int, int)>>,
}

impl View for GuestPageTable {
    type V = PageTableModel;

    closed spec fn view(&self) -> PageTableModel {
        PageTableModel {
            root: self.base,
            capacity: self.capacity as nat,
            tables: self.tables@.len(),
            depth: Map::new(|page: u64| guest_page(page) == page, |page: u64| self.depth_of(page)),
            mappings: Map::new(
                |page: u64|
                    guest_page(page) == page && self.leaf_of(page) is Some && self.leaf_of(
                        page,
                    ).unwrap().is_valid(),
                |page: u64| self.leaf_of(page).unwrap(),
            ),
        }
    }
}

impl GuestPageTable {
    spec fn entry(&self, slot: int, index: int) -> Entry {
        self.tables@[slot]@[index]
    }

    spec fn addr_of(&self, slot: int) -> int {
        self.base + 4096 * slot
    }

    spec fn child(&self, slot: int, index: int) -> int {
        (self.entry(slot, index).paddr() - self.base) / 4096
    }

    spec fn linked(&self, slot: int) -> bool {
        let (p, i) = self.parents@[slot];
        &&& 0 <= self.levels@[slot] <= 2
        &&& 0 <= p < self.tables@.len()
        &&& 0 <= i < 512
        &&& self.levels@[p] == self.levels@[slot] + 1
        &&& self.entry(p, i).is_valid()
        &&& self.child(p, i) == slot
    }

    spec fn entry_ok(&self, slot: int, index: int) -> bool {
        self.levels@[slot] >= 1 && self.entry(slot, index).is_valid() ==> {
            let c = self.child(slot, index);
            &&& 1 <= c < self.tables@.len()
            &&& self.parents@[c] == (slot, index)
            &&& self.entry(slot, index) == Entry::new(self.addr_of(c) as u64, PTEFlags::v())
        }
    }

    /// The tree is sound: every table but the root hangs under exactly one
    /// valid entry of the level above it, and the pool fits in the address
    /// space.
    pub closed spec fn wf(&self) -> bool {
        &&& self.base % 4096 == 0
        &&& self.base + 4096 * self.capacity <= u64::MAX
        &&& 1 <= self.tables@.len() <= self.capacity
        &&& self.levels@.len() == self.tables@.len()
        &&& self.parents@.len() == self.tables@.len()
        &&& self.levels@[0] == 3
        &&& forall|s: int| 1 <= s < self.tables@.len() ==> #[trigger] self.linked(s)
        &&& forall|s: int, i: int|
            0 <= s < self.tables@.len() && 0 <= i < 512 ==> #[trigger] self.entry_ok(s, i)
    }

    /// The slot of the table of `level` on the walk for `guest_paddr`, where
    /// the walk gets that far.
    spec fn node(&self, guest_paddr: u64, level: int) -> Option<int>
        decreases 3 - level,
    {
        if level >= 3 {
            Some(0int)
        } else {
            match self.node(guest_paddr, level + 1) {
                Some(s) => {
                    let i = Table::index_of(guest_paddr, (level + 1) as usize);
                    if self.entry(s, i).is_valid() {
                        Some(self.child(s, i))
                    } else {
                        None
                    }
                },
                None => None,
            }
        }
    }

    spec fn depth_of(&self, guest_paddr: u64) -> nat {
        if self.node(guest_paddr, 2) is None {
            0
        } else if self.node(guest_paddr, 1) is None {
            1
        } else if self.node(guest_paddr, 0) is None {
            2
        } else {
            3
        }
    }

    spec fn leaf_of(&self, guest_paddr: u64) -> Option<Entry> {
        match self.node(guest_paddr, 0) {
            Some(s) => Some(self.entry(s, Table::index_of(guest_paddr, 0))),
            None => None,
        }
    }

    proof fn lemma_node_in_range(&self, guest_paddr: u64, level: int)
        requires
            self.wf(),
            0 <= level <= 3,
        ensures
            self.node(guest_paddr, level) matches Some(s) ==> {
                &&& 0 <= s < self.tables@.len()
                &&& self.levels@[s] == level
                &&& level < 3 ==> s >= 1
            },
        decreases 3 - level,
    {
        if level < 3 {
            self.lemma_node_in_range(guest_paddr, level + 1);
            if let Some(p) = self.node(guest_paddr, level + 1) {
                let i = Table::index_of(guest_paddr, (level + 1) as usize);
                Table::lemma_index_of(guest_paddr, (level + 1) as usize);
                assert(self.entry_ok(p, i));
                if self.entry(p, i).is_valid() {
                    assert(self.linked(self.child(p, i)));
                }
            }
        }
    }

    spec fn same_prefix(a: u64, b: u64, level: int) -> bool {
        &&& level < 3 ==> Table::index_of(a, 3) == Table::index_of(b, 3)
        &&& level < 2 ==> Table::index_of(a, 2) == Table::index_of(b, 2)
        &&& level < 1 ==> Table::index_of(a, 1) == Table::index_of(b, 1)
    }

    /// Walks that read the same indices above a level reach the same table
    /// of that level.
    proof fn lemma_same_prefix_same_node(&self, a: u64, b: u64, level: int)
        requires
            0 <= level <= 3,
            Self::same_prefix(a, b, level),
        ensures
            self.node(a, level) == self.node(b, level),
        decreases 3 - level,
    {
        if level < 3 {
            self.lemma_same_prefix_same_node(a, b, level + 1);
        }
    }

    /// Walks that reach the same table of a level read the same indices
    /// above it: no table hangs under two entries.
    proof fn lemma_same_node_same_prefix(&self, a: u64, b: u64, level: int)
        requires
            self.wf(),
            0 <= level <= 3,
            self.node(a, level) is Some,
            self.node(a, level) == self.node(b, level),
        ensures
            Self::same_prefix(a, b, level),
        decreases 3 - level,
    {
        if level < 3 {
            let pa = self.node(a, level + 1).unwrap();
            let pb = self.node(b, level + 1).unwrap();
            let ia = Table::index_of(a, (level + 1) as usize);
            let ib = Table::index_of(b, (level + 1) as usize);
            self.lemma_node_in_range(a, level + 1);
            self.lemma_node_in_range(b, level + 1);
            Table::lemma_index_of(a, (level + 1) as usize);
            Table::lemma_index_of(b, (level + 1) as usize);
            assert(self.entry_ok(pa, ia));
            assert(self.entry_ok(pb, ib));
            assert(pa == pb && ia == ib);
            self.lemma_same_node_same_prefix(a, b, level + 1);
        }
    }

    /// A tree of its own for one guest: a pool of `capacity` pages from the
    /// allocator, with the root table, all of it invalid, in the first.
    /// Nothing is mapped. Without room for the root, or without the pages,
    /// there is no tree and the allocator keeps what it had.
    pub fn new(allocator: &mut PageAllocator, capacity: usize) -> (r: Result<
        GuestPageTable,
        MapError,
    >)
        requires
            old(allocator).wf(),
        ensures
            final(allocator).wf(),
            final(allocator).is_initialized() == old(allocator).is_initialized(),
            match r {
                Ok(table) => {
                    &&& capacity >= 1
                    &&& capacity <= old(allocator).free_pages()
                    &&& table.wf()
                    &&& table@.root == old(allocator).next_addr()
                    &&& table@.capacity == capacity
                    &&& table@.tables == 1
                    &&& table.pool().len() == 1
                    &&& forall|i: int| 0 <= i < 512 ==> #[trigger] table.pool()[0][i] == Entry(0)
                    &&& forall|i: int| 0 <= i < 512 ==> !(#[trigger] table.pool()[0][i]).is_valid()
                    &&& table@.mappings == Map::<u64, Entry>::empty()
                    &&& table@.depth == Map::new(
                        |page: u64| guest_page(page) == page,
                        |page: u64| 0nat,
                    )
                    &&& final(allocator).next_addr() == old(allocator).next_addr() + 4096 * capacity
                    &&& final(allocator).free_pages() == old(allocator).free_pages() - capacity
                },
                Err(e) => {
                    &&& *final(allocator) == *old(allocator)
                    &&& e == if capacity == 0 {
                        MapError::OutOfTables
                    } else {
                        MapError::OutOfMemory
                    }
                    &&& capacity == 0 || capacity > old(allocator).free_pages()
                },
            },
    {
        if capacity == 0 {
            return Err(MapError::OutOfTables);
        }
        proof {
            allocator.lemma_bounds();
        }
        if capacity as u64 > u64::MAX / 4096 {
            return Err(MapError::OutOfMemory);
        }
        let len = capacity as u64 * 4096;
        assert(pages_for(len as nat) == capacity);
        let base = match allocator.alloc_pages(len) {
            Ok(base) => base,
            Err(_) => {
                return Err(MapError::OutOfMemory);
            },
        };
        let mut tables: Vec<Table> = Vec::new();
        tables.push(Table::allocate());
        let levels: Ghost<Seq<int>> = Ghost(Seq::<int>::empty().push(3int));
        let parents: Ghost<Seq<(int, int)>> = Ghost(Seq::<(int, int)>::empty().push((0int, 0int)));
        let table = GuestPageTable { base, capacity, tables, levels, parents };
        proof {
            Entry(0).lemma_valid_bit();
            assert forall|s: int, i: int|
                0 <= s < table.tables@.len() && 0 <= i < 512 implies #[trigger] table.entry_ok(
                s,
                i,
            ) by {
                assert(table.entry(s, i) == Entry(0));
            }
            assert(table.wf());
            assert forall|page: u64| table.node(page, 2) is None by {
                Table::lemma_index_of(page, 3);
                assert(table.node(page, 3) == Some(0int));
                assert(table.entry(0, Table::index_of(page, 3)) == Entry(0));
            }
            assert forall|page: u64| #[trigger] table.depth_of(page) == 0 by {
                assert(table.node(page, 2) is None);
            }
            assert forall|page: u64| #[trigger] table.leaf_of(page) is None by {
                assert(table.node(page, 2) is None);
                assert(table.node(page, 1) is None);
                assert(table.node(page, 0) is None);
            }
            assert(table@.mappings =~= Map::<u64, Entry>::empty());
            assert(table@.depth =~= Map::new(
                |page: u64| guest_page(page) == page,
                |page: u64| 0nat,
            ));
        }
        Ok(table)
    }

    /// The value of the activation register for this tree: the mode in the
    /// top four bits, the page number of the root table below.
    pub fn hgatp(&self) -> (value: u64)
        ensures
            value == self@.activation_value(),
    {
        (HGATP_MODE << 60) | (self.base >> 12)
    }

    /// The address of the root table.
    pub fn root_paddr(&self) -> (paddr: u64)
        ensures
            paddr == self@.root,
    {
        self.base
    }

    /// The number of tables that the tree holds, the root among them.
    pub fn table_count(&self) -> (count: usize)
        ensures
            count == self@.tables,
    {
        self.tables.len()
    }

    /// The number of tables that the tree may hold.
    pub fn capacity(&self) -> (count: usize)
        ensures
            count == self@.capacity,
    {
        self.capacity
    }

    /// The tables of the tree as they lie in the pool: the table in slot `i`
    /// belongs at the address of the root plus `i` pages.
    pub closed spec fn pool(&self) -> Seq<Seq<Entry>> {
        Seq::new(self.tables@.len(), |slot: int| self.tables@[slot]@)
    }

    /// The table in `slot` of the pool, where there is one.
    pub fn table(&self, slot: usize) -> (r: Option<&Table>)
        ensures
            self.pool().len() == self@.tables,
            r is Some <==> slot < self@.tables,
            r matches Some(table) ==> table@ == self.pool()[slot as int],
    {
        if slot < self.tables.len() {
            Some(&self.tables[slot])
        } else {
            None
        }
    }

    /// The address at which the table in `slot` of the pool belongs, where
    /// there is one.
    pub fn table_paddr(&self, slot: usize) -> (r: Option<u64>)
        requires
            self.wf(),
        ensures
            r is Some <==> slot < self@.tables,
            r matches Some(paddr) ==> paddr == self@.root + 4096 * slot,
    {
        if slot < self.tables.len() {
            Some(self.base + 4096 * (slot as u64))
        } else {
            None
        }
    }

    proof fn lemma_walk_to(&self, guest_paddr: u64, level: int)
        requires
            self.wf(),
            0 <= level <= 3,
        ensures
            walk_to(self.base, self.pool(), guest_paddr, level) == self.node(guest_paddr, level),
        decreases 3 - level,
    {
        if level < 3 {
            self.lemma_walk_to(guest_paddr, level + 1);
            self.lemma_node_in_range(guest_paddr, level + 1);
        }
    }

    /// What the tree means is what the hardware finds in its tables: the
    /// walk through the pool stays within the pool, and it ends in the leaf
    /// entry that the model has for the page.
    pub proof fn lemma_hardware_walk(&self, guest_paddr: u64)
        requires
            self.wf(),
        ensures
            self.pool().len() == self@.tables,
            forall|slot: int|
                0 <= slot < self.pool().len() ==> (#[trigger] self.pool()[slot]).len() == 512,
            forall|level: int|
                0 <= level <= 3 ==> (#[trigger] walk_to(
                    self@.root,
                    self.pool(),
                    guest_paddr,
                    level,
                ) matches Some(slot) ==> 0 <= slot < self.pool().len()),
            walk_leaf(self@.root, self.pool(), guest_paddr) == self@.lookup(guest_paddr),
            walk_depth(self@.root, self.pool(), guest_paddr) == self@.depth[guest_page(
                guest_paddr,
            )],
    {
        self.lemma_walk_to(guest_paddr, 1);
        self.lemma_walk_to(guest_paddr, 2);
        assert forall|level: int| 0 <= level <= 3 implies (#[trigger] walk_to(
            self@.root,
            self.pool(),
            guest_paddr,
            level,
        ) matches Some(slot) ==> 0 <= slot < self.pool().len()) by {
            self.lemma_walk_to(guest_paddr, level);
            self.lemma_node_in_range(guest_paddr, level);
        }
        self.lemma_walk_to(guest_paddr, 0);
        self.lemma_node_in_range(guest_paddr, 0);
        self.lemma_view(guest_paddr);
    }

    /// The pool of a sound tree starts at a page boundary, holds no more
    /// tables than it may, each of 512 entries, and ends within the address
    /// space.
    pub proof fn lemma_pool_bounds(&self)
        requires
            self.wf(),
        ensures
            self@.root % 4096 == 0,
            self@.root + 4096 * self@.capacity <= u64::MAX,
            1 <= self.pool().len() == self@.tables <= self@.capacity,
            forall|slot: int|
                0 <= slot < self.pool().len() ==> (#[trigger] self.pool()[slot]).len() == 512,
    {
    }

    /// An entry above the leaves that a walk finds valid holds Valid alone
    /// and the address of the table that the walk goes on in, which is in
    /// the pool and is not the root.
    pub proof fn lemma_walk_entry(&self, guest_paddr: u64, level: int)
        requires
            self.wf(),
            1 <= level <= 3,
            walk_to(self@.root, self.pool(), guest_paddr, level - 1) is Some,
        ensures
            ({
                let slot = walk_to(self@.root, self.pool(), guest_paddr, level).unwrap();
                let below = walk_to(self@.root, self.pool(), guest_paddr, level - 1).unwrap();
                let entry = self.pool()[slot][Table::index_of(guest_paddr, level as usize)];
                &&& walk_to(self@.root, self.pool(), guest_paddr, level) is Some
                &&& 0 <= slot < self.pool().len()
                &&& 1 <= below < self.pool().len()
                &&& below != slot
                &&& entry == Entry::new((self@.root + 4096 * below) as u64, PTEFlags::v())
                &&& entry.is_valid()
                &&& entry.flags() == PTEFlags::v()
                &&& entry.paddr() == self@.root + 4096 * below
            }),
    {
        reveal_with_fuel(GuestPageTable::node, 4);
        self.lemma_walk_to(guest_paddr, level);
        self.lemma_walk_to(guest_paddr, level - 1);
        self.lemma_node_in_range(guest_paddr, level);
        self.lemma_node_in_range(guest_paddr, level - 1);
        Table::lemma_index_of(guest_paddr, level as usize);
        let slot = self.node(guest_paddr, level).unwrap();
        let below = self.node(guest_paddr, level - 1).unwrap();
        assert(self.entry_ok(slot, Table::index_of(guest_paddr, level as usize)));
        Entry::lemma_new(self.addr_of(below) as u64, PTEFlags::v());
        Entry::lemma_new_valid(self.addr_of(below) as u64);
    }

    /// Every table has a place of its own: walks that reach the same table
    /// of a level have read the same indices above it, so no two entries
    /// hold the address of one table.
    pub proof fn lemma_table_of_its_own(&self, a: u64, b: u64, level: int)
        requires
            self.wf(),
            0 <= level <= 2,
            walk_to(self@.root, self.pool(), a, level) is Some,
            walk_to(self@.root, self.pool(), a, level) == walk_to(
                self@.root,
                self.pool(),
                b,
                level,
            ),
        ensures
            forall|above: int|
                level < above <= 3 ==> #[trigger] Table::index_of(a, above as usize)
                    == Table::index_of(b, above as usize),
            forall|above: int|
                level < above <= 3 ==> #[trigger] walk_to(self@.root, self.pool(), a, above)
                    == walk_to(self@.root, self.pool(), b, above),
    {
        self.lemma_walk_to(a, level);
        self.lemma_walk_to(b, level);
        self.lemma_same_node_same_prefix(a, b, level);
        assert forall|above: int| level < above <= 3 implies #[trigger] walk_to(
            self@.root,
            self.pool(),
            a,
            above,
        ) == walk_to(self@.root, self.pool(), b, above) by {
            self.lemma_walk_to(a, above);
            self.lemma_walk_to(b, above);
            self.lemma_same_prefix_same_node(a, b, above);
        }
    }

    /// A sound tree has a sound model.
    pub proof fn lemma_model_wf(&self)
        requires
            self.wf(),
        ensures
            self@.wf(),
    {
        reveal_with_fuel(GuestPageTable::node, 4);
    }

    proof fn lemma_child(&self, slot: int, index: int)
        requires
            self.wf(),
            0 <= slot < self.tables@.len(),
            0 <= index < 512,
            self.levels@[slot] >= 1,
            self.entry(slot, index).is_valid(),
        ensures
            1 <= self.child(slot, index) < self.tables@.len(),
            self.entry(slot, index).paddr() == self.addr_of(self.child(slot, index)),
            self.levels@[self.child(slot, index)] == self.levels@[slot] - 1,
    {
        let c = self.child(slot, index);
        assert(self.entry_ok(slot, index));
        assert(self.linked(c));
        Entry::lemma_new(self.addr_of(c) as u64, PTEFlags::v());
    }

    /// A walk for an address is the walk for its page.
    proof fn lemma_page_walk(&self, guest_paddr: u64)
        ensures
            forall|level: int|
                0 <= level <= 3 ==> #[trigger] self.node(guest_page(guest_paddr), level)
                    == self.node(guest_paddr, level),
            self.depth_of(guest_page(guest_paddr)) == self.depth_of(guest_paddr),
            self.leaf_of(guest_page(guest_paddr)) == self.leaf_of(guest_paddr),
    {
        lemma_guest_page(guest_paddr, guest_paddr);
        assert forall|level: int| 0 <= level <= 3 implies #[trigger] self.node(
            guest_page(guest_paddr),
            level,
        ) == self.node(guest_paddr, level) by {
            self.lemma_same_prefix_same_node(guest_page(guest_paddr), guest_paddr, level);
        }
        assert(self.node(guest_page(guest_paddr), 2) == self.node(guest_paddr, 2));
        assert(self.node(guest_page(guest_paddr), 1) == self.node(guest_paddr, 1));
        assert(self.node(guest_page(guest_paddr), 0) == self.node(guest_paddr, 0));
    }

    /// What the tree means is what its walks find.
    proof fn lemma_view(&self, guest_paddr: u64)
        ensures
            self@.depth.contains_key(guest_page(guest_paddr)),
            self@.depth[guest_page(guest_paddr)] == self.depth_of(guest_paddr),
            self@.lookup(guest_paddr) == match self.leaf_of(guest_paddr) {
                Some(e) => if e.is_valid() {
                    Some(e)
                } else {
                    None
                },
                None => None,
            },
    {
        lemma_guest_page(guest_paddr, guest_paddr);
        self.lemma_page_walk(guest_paddr);
    }

    /// Walks from the root toward the leaf of `guest_paddr`: how many tables
    /// below the root stand on the way, and the leaf entry where all three
    /// do.
    fn probe(&self, guest_paddr: u64) -> (r: (usize, Option<Entry>))
        requires
            self.wf(),
        ensures
            r.0 == self.depth_of(guest_paddr),
            r.1 == self.leaf_of(guest_paddr),
            r.0 <= 3,
    {
        let mut slot: usize = 0;
        let mut level: usize = 3;
        while level > 0
            invariant
                self.wf(),
                level <= 3,
                self.node(guest_paddr, level as int) == Some(slot as int),
            decreases level,
        {
            proof {
                self.lemma_node_in_range(guest_paddr, level as int);
                Table::lemma_index_of(guest_paddr, level);
                reveal_with_fuel(GuestPageTable::node, 4);
            }
            let entry = self.tables[slot].entry_at(guest_paddr, level);
            if !entry.is_valid() {
                return (3 - level, None);
            }
            proof {
                self.lemma_child(slot as int, Table::index_of(guest_paddr, level));
            }
            slot = ((entry.paddr() - self.base) / 4096) as usize;
            level = level - 1;
        }
        proof {
            self.lemma_node_in_range(guest_paddr, 0);
            reveal_with_fuel(GuestPageTable::node, 4);
        }
        (3, Some(self.tables[slot].entry_at(guest_paddr, 0)))
    }

    /// The leaf entry of the page of `guest_paddr`, where the page is
    /// mapped: what the hardware finds by walking the tree.
    pub fn walk(&self, guest_paddr: u64) -> (r: Option<Entry>)
        requires
            self.wf(),
        ensures
            r == self@.lookup(guest_paddr),
    {
        proof {
            self.lemma_view(guest_paddr);
        }
        match self.probe(guest_paddr).1 {
            Some(entry) => if entry.is_valid() {
                Some(entry)
            } else {
                None
            },
            None => None,
        }
    }

    /// The host address that `guest_paddr` translates to, with the
    /// permissions of its page: the page of the leaf entry and the offset of
    /// `guest_paddr` within its own. `None` where the page is not mapped.
    pub fn translate(&self, guest_paddr: u64) -> (r: Option<(u64, PTEFlags)>)
        requires
            self.wf(),
        ensures
            r == match self@.lookup(guest_paddr) {
                Some(e) => Some(((e.paddr() + guest_paddr % 4096) as u64, e.flags())),
                None => None,
            },
            r matches Some(t) ==> t.0 == self@.lookup(guest_paddr).unwrap().paddr() + guest_paddr
                % 4096,
    {
        match self.walk(guest_paddr) {
            Some(entry) => {
                proof {
                    entry.lemma_paddr_aligned();
                }
                Some((entry.paddr() + guest_paddr % 4096, entry.flags()))
            },
            None => None,
        }
    }

    /// `b` is `a` with tables added on the walk for `guest_paddr`, at no
    /// level below `low`: the walks that got somewhere in `a` get there in
    /// `b`, the leaves of `a` stand as they were, and the leaf tables that
    /// are new hold nothing.
    spec fn grown(a: GuestPageTable, b: GuestPageTable, guest_paddr: u64, low: int) -> bool {
        &&& b.base == a.base
        &&& b.capacity == a.capacity
        &&& forall|p: u64, l: int|
            #![trigger a.node(p, l)]
            #![trigger b.node(p, l)]
            0 <= l <= 3 && a.node(p, l) is Some ==> b.node(p, l) == a.node(p, l)
        &&& forall|p: u64, l: int|
            #![trigger a.node(p, l)]
            #![trigger b.node(p, l)]
            0 <= l <= 3 && a.node(p, l) is None && b.node(p, l) is Some ==> l >= low
                && Self::same_prefix(p, guest_paddr, l)
        &&& forall|p: u64|
            #![trigger a.node(p, 0)]
            #![trigger b.node(p, 0)]
            a.node(p, 0) is Some ==> b.entry(a.node(p, 0).unwrap(), Table::index_of(p, 0))
                == a.entry(a.node(p, 0).unwrap(), Table::index_of(p, 0))
        &&& forall|p: u64|
            #![trigger a.node(p, 0)]
            #![trigger b.node(p, 0)]
            a.node(p, 0) is None && b.node(p, 0) is Some ==> b.entry(
                b.node(p, 0).unwrap(),
                Table::index_of(p, 0),
            ) == Entry(0)
    }

    /// `b` is `a` with one new table, all of it invalid, hung under the
    /// entry that the walk for `guest_paddr` reads at `level`.
    spec fn is_link(a: GuestPageTable, b: GuestPageTable, guest_paddr: u64, level: int) -> bool {
        let s = a.node(guest_paddr, level).unwrap();
        let i = Table::index_of(guest_paddr, level as usize);
        let n = a.tables@.len() as int;
        &&& b.base == a.base
        &&& b.capacity == a.capacity
        &&& b.tables@.len() == n + 1
        &&& forall|t: int, j: int|
            0 <= t < n && 0 <= j < 512 ==> #[trigger] b.entry(t, j) == (if t == s && j == i {
                Entry::new(a.addr_of(n) as u64, PTEFlags::v())
            } else {
                a.entry(t, j)
            })
        &&& forall|j: int| 0 <= j < 512 ==> #[trigger] b.entry(n, j) == Entry(0)
        &&& b.levels@ == a.levels@.push(level - 1)
        &&& b.parents@ == a.parents@.push((s, i))
    }

    proof fn lemma_link_wf(a: GuestPageTable, b: GuestPageTable, guest_paddr: u64, level: int)
        requires
            a.wf(),
            1 <= level <= 3,
            a.node(guest_paddr, level) is Some,
            !a.entry(
                a.node(guest_paddr, level).unwrap(),
                Table::index_of(guest_paddr, level as usize),
            ).is_valid(),
            a.tables@.len() < a.capacity,
            Self::is_link(a, b, guest_paddr, level),
        ensures
            b.wf(),
            b.child(
                a.node(guest_paddr, level).unwrap(),
                Table::index_of(guest_paddr, level as usize),
            ) == a.tables@.len(),
            b.entry(
                a.node(guest_paddr, level).unwrap(),
                Table::index_of(guest_paddr, level as usize),
            ).is_valid(),
    {
        let s = a.node(guest_paddr, level).unwrap();
        let i = Table::index_of(guest_paddr, level as usize);
        let n = a.tables@.len() as int;
        a.lemma_node_in_range(guest_paddr, level);
        Table::lemma_index_of(guest_paddr, level as usize);
        Entry::lemma_new_valid(a.addr_of(n) as u64);
        Entry(0).lemma_valid_bit();
        assert(b.entry(s, i) == Entry::new(a.addr_of(n) as u64, PTEFlags::v()));
        assert(b.child(s, i) == n);
        assert forall|c: int| 1 <= c < b.tables@.len() implies #[trigger] b.linked(c) by {
            if c < n {
                assert(a.linked(c));
                let (p, j) = a.parents@[c];
                assert(b.entry(p, j) == a.entry(p, j));
            }
        }
        assert forall|t: int, j: int|
            0 <= t < b.tables@.len() && 0 <= j < 512 implies #[trigger] b.entry_ok(t, j) by {
            if t == n {
                assert(b.entry(n, j) == Entry(0));
            } else if t == s && j == i {
            } else {
                assert(a.entry_ok(t, j));
                assert(b.entry(t, j) == a.entry(t, j));
            }
        }
    }

    proof fn lemma_link_node(
        a: GuestPageTable,
        b: GuestPageTable,
        guest_paddr: u64,
        level: int,
        p: u64,
        l: int,
    )
        requires
            a.wf(),
            1 <= level <= 3,
            a.node(guest_paddr, level) is Some,
            !a.entry(
                a.node(guest_paddr, level).unwrap(),
                Table::index_of(guest_paddr, level as usize),
            ).is_valid(),
            a.tables@.len() < a.capacity,
            Self::is_link(a, b, guest_paddr, level),
            0 <= l <= 3,
        ensures
            b.node(p, l) == match a.node(p, l) {
                Some(x) => Some(x),
                None => if l == level - 1 && a.node(p, level) == a.node(guest_paddr, level)
                    && Table::index_of(p, level as usize) == Table::index_of(
                    guest_paddr,
                    level as usize,
                ) {
                    Some(a.tables@.len() as int)
                } else {
                    None
                },
            },
        decreases 3 - l,
    {
        let s = a.node(guest_paddr, level).unwrap();
        let i = Table::index_of(guest_paddr, level as usize);
        let n = a.tables@.len() as int;
        if l < 3 {
            Self::lemma_link_node(a, b, guest_paddr, level, p, l + 1);
            Self::lemma_link_wf(a, b, guest_paddr, level);
            a.lemma_node_in_range(p, l + 1);
            a.lemma_node_in_range(guest_paddr, level);
            let j = Table::index_of(p, (l + 1) as usize);
            Table::lemma_index_of(p, (l + 1) as usize);
            Entry(0).lemma_valid_bit();
            match a.node(p, l + 1) {
                Some(x) => {
                    assert(b.node(p, l + 1) == Some(x));
                    if x == s && j == i {
                        assert(l + 1 == level);
                        assert(a.node(p, l) is None);
                        assert(b.node(p, l) == Some(n));
                    } else {
                        assert(b.entry(x, j) == a.entry(x, j));
                        assert(b.node(p, l) == a.node(p, l));
                        if l == level - 1 {
                            assert(a.node(p, level) == Some(x));
                        }
                    }
                },
                None => {
                    assert(a.node(p, l) is None);
                    if b.node(p, l + 1) is Some {
                        assert(b.node(p, l + 1) == Some(n));
                        assert(b.entry(n, j) == Entry(0));
                    }
                    assert(b.node(p, l) is None);
                },
            }
        }
    }

    proof fn lemma_link(a: GuestPageTable, b: GuestPageTable, guest_paddr: u64, level: int)
        requires
            a.wf(),
            1 <= level <= 3,
            a.node(guest_paddr, level) is Some,
            !a.entry(
                a.node(guest_paddr, level).unwrap(),
                Table::index_of(guest_paddr, level as usize),
            ).is_valid(),
            a.tables@.len() < a.capacity,
            Self::is_link(a, b, guest_paddr, level),
        ensures
            b.wf(),
            a.node(guest_paddr, level - 1) is None,
            b.node(guest_paddr, level - 1) == Some(a.tables@.len() as int),
            Self::grown(a, b, guest_paddr, level - 1),
    {
        let s = a.node(guest_paddr, level).unwrap();
        let n = a.tables@.len() as int;
        Self::lemma_link_wf(a, b, guest_paddr, level);
        Self::lemma_link_node(a, b, guest_paddr, level, guest_paddr, level - 1);
        a.lemma_node_in_range(guest_paddr, level);
        assert forall|p: u64, l: int|
            #![trigger a.node(p, l)]
            #![trigger b.node(p, l)]
            0 <= l <= 3 && a.node(p, l) is Some implies b.node(p, l) == a.node(p, l) by {
            Self::lemma_link_node(a, b, guest_paddr, level, p, l);
        }
        assert forall|p: u64, l: int|
            #![trigger a.node(p, l)]
            #![trigger b.node(p, l)]
            0 <= l <= 3 && a.node(p, l) is None && b.node(p, l) is Some implies l >= level - 1
            && Self::same_prefix(p, guest_paddr, l) by {
            Self::lemma_link_node(a, b, guest_paddr, level, p, l);
            a.lemma_same_node_same_prefix(p, guest_paddr, level);
        }
        assert forall|p: u64|
            #![trigger a.node(p, 0)]
            #![trigger b.node(p, 0)]
            a.node(p, 0) is Some implies b.entry(a.node(p, 0).unwrap(), Table::index_of(p, 0))
            == a.entry(a.node(p, 0).unwrap(), Table::index_of(p, 0)) by {
            a.lemma_node_in_range(p, 0);
            Table::lemma_index_of(p, 0);
        }
        assert forall|p: u64|
            #![trigger a.node(p, 0)]
            #![trigger b.node(p, 0)]
            a.node(p, 0) is None && b.node(p, 0) is Some implies b.entry(
            b.node(p, 0).unwrap(),
            Table::index_of(p, 0),
        ) == Entry(0) by {
            Self::lemma_link_node(a, b, guest_paddr, level, p, 0);
            Table::lemma_index_of(p, 0);
        }
    }

    /// Whether the walk for `guest_paddr` reads, in a table above the
    /// leaves, the entry in slot `t` at index `j`.
    spec fn on_walk(b: GuestPageTable, guest_paddr: u64, t: int, j: int) -> bool {
        ||| b.node(guest_paddr, 3) == Some(t) && j == Table::index_of(guest_paddr, 3)
        ||| b.node(guest_paddr, 2) == Some(t) && j == Table::index_of(guest_paddr, 2)
        ||| b.node(guest_paddr, 1) == Some(t) && j == Table::index_of(guest_paddr, 1)
    }

    /// `b` holds what `a` held in every entry that the walk for
    /// `guest_paddr` does not read above the leaves, and zero in the tables
    /// that `a` had not.
    spec fn kept(a: GuestPageTable, b: GuestPageTable, guest_paddr: u64) -> bool {
        &&& a.tables@.len() <= b.tables@.len()
        &&& forall|t: int, j: int|
            0 <= t < b.tables@.len() && 0 <= j < 512 && !Self::on_walk(b, guest_paddr, t, j)
                ==> #[trigger] b.entry(t, j) == (if t < a.tables@.len() {
                a.entry(t, j)
            } else {
                Entry(0)
            })
    }

    proof fn lemma_kept_further(
        a: GuestPageTable,
        b: GuestPageTable,
        c: GuestPageTable,
        guest_paddr: u64,
        low: int,
    )
        requires
            Self::kept(a, b, guest_paddr),
            Self::kept(b, c, guest_paddr),
            Self::grown(b, c, guest_paddr, low),
        ensures
            Self::kept(a, c, guest_paddr),
    {
        assert forall|t: int, j: int|
            0 <= t < c.tables@.len() && 0 <= j < 512 && !Self::on_walk(
                c,
                guest_paddr,
                t,
                j,
            ) implies #[trigger] c.entry(t, j) == (if t < a.tables@.len() {
            a.entry(t, j)
        } else {
            Entry(0)
        }) by {
            if t < b.tables@.len() {
                assert(c.entry(t, j) == b.entry(t, j));
                if Self::on_walk(b, guest_paddr, t, j) {
                    assert(b.node(guest_paddr, 3) is Some ==> c.node(guest_paddr, 3) == b.node(
                        guest_paddr,
                        3,
                    ));
                    assert(b.node(guest_paddr, 2) is Some ==> c.node(guest_paddr, 2) == b.node(
                        guest_paddr,
                        2,
                    ));
                    assert(b.node(guest_paddr, 1) is Some ==> c.node(guest_paddr, 1) == b.node(
                        guest_paddr,
                        1,
                    ));
                    assert(false);
                }
            }
        }
    }

    proof fn lemma_link_kept(a: GuestPageTable, b: GuestPageTable, guest_paddr: u64, level: int)
        requires
            a.wf(),
            1 <= level <= 3,
            a.node(guest_paddr, level) is Some,
            Self::is_link(a, b, guest_paddr, level),
            Self::grown(a, b, guest_paddr, level - 1),
        ensures
            Self::kept(a, b, guest_paddr),
    {
        assert(b.node(guest_paddr, level) == a.node(guest_paddr, level));
        a.lemma_node_in_range(guest_paddr, level);
    }

    /// The tables after the leaf was written, told entry by entry.
    proof fn lemma_pool_mapped(
        start: GuestPageTable,
        full: GuestPageTable,
        b: GuestPageTable,
        guest_paddr: u64,
        entry: Entry,
    )
        requires
            start.wf(),
            full.wf(),
            b.wf(),
            Self::grown(start, full, guest_paddr, 0),
            Self::kept(start, full, guest_paddr),
            full.node(guest_paddr, 0) is Some,
            Self::is_leaf_set(full, b, guest_paddr, entry),
        ensures
            pool_mapped(start.pool(), b.pool(), start.base, guest_paddr, entry),
    {
        reveal_with_fuel(GuestPageTable::node, 4);
        let before = start.pool();
        let after = b.pool();
        let root = start.base;
        Self::lemma_leaf_set_node(full, b, guest_paddr, entry, guest_paddr, 0);
        Self::lemma_leaf_set_node(full, b, guest_paddr, entry, guest_paddr, 1);
        Self::lemma_leaf_set_node(full, b, guest_paddr, entry, guest_paddr, 2);
        b.lemma_walk_to(guest_paddr, 0);
        b.lemma_walk_to(guest_paddr, 1);
        b.lemma_walk_to(guest_paddr, 2);
        full.lemma_node_in_range(guest_paddr, 0);
        full.lemma_node_in_range(guest_paddr, 1);
        full.lemma_node_in_range(guest_paddr, 2);
        full.lemma_node_in_range(guest_paddr, 3);
        Table::lemma_index_of(guest_paddr, 1);
        Table::lemma_index_of(guest_paddr, 2);
        Table::lemma_index_of(guest_paddr, 3);
        let t2 = full.node(guest_paddr, 2).unwrap();
        let t1 = full.node(guest_paddr, 1).unwrap();
        let t0 = full.node(guest_paddr, 0).unwrap();
        assert(full.entry_ok(0, Table::index_of(guest_paddr, 3)));
        assert(full.entry_ok(t2, Table::index_of(guest_paddr, 2)));
        assert(full.entry_ok(t1, Table::index_of(guest_paddr, 1)));
        assert forall|level: int|
            0 <= level <= 2 && (#[trigger] walk_to(root, before, guest_paddr, level))
                is Some implies walk_to(root, after, guest_paddr, level) == walk_to(
            root,
            before,
            guest_paddr,
            level,
        ) by {
            start.lemma_walk_to(guest_paddr, level);
            b.lemma_walk_to(guest_paddr, level);
            Self::lemma_leaf_set_node(full, b, guest_paddr, entry, guest_paddr, level);
            assert(full.node(guest_paddr, level) == start.node(guest_paddr, level));
        }
        assert forall|slot: int, i: int|
            0 <= slot < after.len() && 0 <= i < 512 implies #[trigger] after[slot][i]
            == entry_after_map(before, root, guest_paddr, entry, t2, t1, t0, slot, i) by {
            assert(after[slot][i] == b.entry(slot, i));
            if slot < before.len() {
                assert(before[slot][i] == start.entry(slot, i));
            }
            if !(slot == t0 && i == Table::index_of(guest_paddr, 0)) {
                assert(b.entry(slot, i) == full.entry(slot, i));
                if !Self::on_walk(full, guest_paddr, slot, i) {
                    assert(full.entry(slot, i) == (if slot < start.tables@.len() {
                        start.entry(slot, i)
                    } else {
                        Entry(0)
                    }));
                }
            }
        }
    }

    proof fn lemma_grown_same(a: GuestPageTable, guest_paddr: u64, low: int)
        ensures
            Self::grown(a, a, guest_paddr, low),
    {
    }

    proof fn lemma_grown_further(
        a: GuestPageTable,
        b: GuestPageTable,
        c: GuestPageTable,
        guest_paddr: u64,
        low: int,
    )
        requires
            Self::grown(a, b, guest_paddr, low + 1),
            Self::grown(b, c, guest_paddr, low),
        ensures
            Self::grown(a, c, guest_paddr, low),
    {
        assert forall|p: u64, l: int|
            #![trigger a.node(p, l)]
            #![trigger c.node(p, l)]
            0 <= l <= 3 && a.node(p, l) is Some implies c.node(p, l) == a.node(p, l) by {
            assert(b.node(p, l) == a.node(p, l));
        }
        assert forall|p: u64, l: int|
            #![trigger a.node(p, l)]
            #![trigger c.node(p, l)]
            0 <= l <= 3 && a.node(p, l) is None && c.node(p, l) is Some implies l >= low
            && Self::same_prefix(p, guest_paddr, l) by {
            if b.node(p, l) is Some {
            }
        }
        assert forall|p: u64|
            #![trigger a.node(p, 0)]
            #![trigger c.node(p, 0)]
            a.node(p, 0) is Some implies c.entry(a.node(p, 0).unwrap(), Table::index_of(p, 0))
            == a.entry(a.node(p, 0).unwrap(), Table::index_of(p, 0)) by {
            assert(b.node(p, 0) == a.node(p, 0));
        }
        assert forall|p: u64|
            #![trigger a.node(p, 0)]
            #![trigger c.node(p, 0)]
            a.node(p, 0) is None && c.node(p, 0) is Some implies c.entry(
            c.node(p, 0).unwrap(),
            Table::index_of(p, 0),
        ) == Entry(0) by {
            if b.node(p, 0) is Some {
                assert(c.node(p, 0) == b.node(p, 0));
            }
        }
    }

    /// One step of the walk for `guest_paddr` down from the table in `slot`,
    /// which is of `level`: the slot of the table below. Where the entry is
    /// not valid, a fresh table is hung under it first.
    fn descend(&mut self, slot: usize, guest_paddr: u64, level: usize) -> (child: usize)
        requires
            old(self).wf(),
            1 <= level <= 3,
            old(self).node(guest_paddr, level as int) == Some(slot as int),
            old(self).node(guest_paddr, level - 1) is None ==> old(self).tables@.len() < old(
                self,
            ).capacity,
        ensures
            final(self).wf(),
            final(self).node(guest_paddr, level - 1) == Some(child as int),
            Self::grown(*old(self), *final(self), guest_paddr, level - 1),
            Self::kept(*old(self), *final(self), guest_paddr),
            final(self).tables@.len() == old(self).tables@.len() + (if old(self).node(
                guest_paddr,
                level - 1,
            ) is None {
                1int
            } else {
                0int
            }),
    {
        proof {
            self.lemma_node_in_range(guest_paddr, level as int);
            Table::lemma_index_of(guest_paddr, level);
            Self::lemma_grown_same(*self, guest_paddr, level - 1);
        }
        let entry = self.tables[slot].entry_at(guest_paddr, level);
        if entry.is_valid() {
            proof {
                self.lemma_child(slot as int, Table::index_of(guest_paddr, level));
            }
            return ((entry.paddr() - self.base) / 4096) as usize;
        }
        let ghost before = *self;
        let child = self.tables.len();
        let addr = self.base + 4096 * (child as u64);
        let target = self.tables[slot].entry_by_addr(guest_paddr, level);
        *target = Entry::new(addr, PTEFlags::v());
        self.tables.push(Table::allocate());
        self.levels = Ghost(self.levels@.push(level - 1));
        self.parents = Ghost(
            self.parents@.push((slot as int, Table::index_of(guest_paddr, level))),
        );
        proof {
            Self::lemma_link(before, *self, guest_paddr, level as int);
            Self::lemma_link_kept(before, *self, guest_paddr, level as int);
        }
        child
    }

    /// `b` is `a` with `entry` written as the leaf of `guest_paddr`.
    spec fn is_leaf_set(
        a: GuestPageTable,
        b: GuestPageTable,
        guest_paddr: u64,
        entry: Entry,
    ) -> bool {
        let s = a.node(guest_paddr, 0).unwrap();
        let i = Table::index_of(guest_paddr, 0);
        &&& b.base == a.base
        &&& b.capacity == a.capacity
        &&& b.tables@.len() == a.tables@.len()
        &&& forall|t: int, j: int|
            0 <= t < a.tables@.len() && 0 <= j < 512 ==> #[trigger] b.entry(t, j) == (if t == s && j
                == i {
                entry
            } else {
                a.entry(t, j)
            })
        &&& b.levels@ == a.levels@
        &&& b.parents@ == a.parents@
    }

    proof fn lemma_leaf_set_wf(a: GuestPageTable, b: GuestPageTable, guest_paddr: u64, entry: Entry)
        requires
            a.wf(),
            a.node(guest_paddr, 0) is Some,
            Self::is_leaf_set(a, b, guest_paddr, entry),
        ensures
            b.wf(),
    {
        a.lemma_node_in_range(guest_paddr, 0);
        assert forall|c: int| 1 <= c < b.tables@.len() implies #[trigger] b.linked(c) by {
            assert(a.linked(c));
            let (p, j) = a.parents@[c];
            assert(b.entry(p, j) == a.entry(p, j));
        }
        assert forall|t: int, j: int|
            0 <= t < b.tables@.len() && 0 <= j < 512 implies #[trigger] b.entry_ok(t, j) by {
            assert(a.entry_ok(t, j));
            if b.levels@[t] >= 1 {
                assert(b.entry(t, j) == a.entry(t, j));
            }
        }
    }

    proof fn lemma_leaf_set_node(
        a: GuestPageTable,
        b: GuestPageTable,
        guest_paddr: u64,
        entry: Entry,
        p: u64,
        l: int,
    )
        requires
            a.wf(),
            a.node(guest_paddr, 0) is Some,
            Self::is_leaf_set(a, b, guest_paddr, entry),
            0 <= l <= 3,
        ensures
            b.node(p, l) == a.node(p, l),
        decreases 3 - l,
    {
        if l < 3 {
            Self::lemma_leaf_set_node(a, b, guest_paddr, entry, p, l + 1);
            a.lemma_node_in_range(p, l + 1);
            a.lemma_node_in_range(guest_paddr, 0);
            Table::lemma_index_of(p, (l + 1) as usize);
            if let Some(x) = a.node(p, l + 1) {
                assert(b.entry(x, Table::index_of(p, (l + 1) as usize)) == a.entry(
                    x,
                    Table::index_of(p, (l + 1) as usize),
                ));
            }
        }
    }

    /// Tables added on the walk for an address and its leaf written: that
    /// is the mapping of its page, as the model has it.
    proof fn lemma_leaf_set(
        start: GuestPageTable,
        a: GuestPageTable,
        b: GuestPageTable,
        guest_paddr: u64,
        entry: Entry,
    )
        requires
            start.wf(),
            a.wf(),
            Self::grown(start, a, guest_paddr, 0),
            a.node(guest_paddr, 0) is Some,
            start@.lookup(guest_paddr) is None,
            a.tables@.len() == start.tables@.len() + 3 - start.depth_of(guest_paddr),
            entry.is_valid(),
            Self::is_leaf_set(a, b, guest_paddr, entry),
        ensures
            b.wf(),
            start@.map(guest_paddr, entry) == Ok::<PageTableModel, MapError>(b@),
    {
        let s0 = a.node(guest_paddr, 0).unwrap();
        let i0 = Table::index_of(guest_paddr, 0);
        let target = guest_page(guest_paddr);
        Self::lemma_leaf_set_wf(a, b, guest_paddr, entry);
        start.lemma_view(guest_paddr);
        start.lemma_page_walk(guest_paddr);
        a.lemma_page_walk(guest_paddr);
        lemma_guest_page(guest_paddr, guest_paddr);
        Entry(0).lemma_valid_bit();
        reveal_with_fuel(GuestPageTable::node, 4);
        let expected = start@.map(guest_paddr, entry).unwrap();
        assert forall|page: u64| guest_page(page) == page implies #[trigger] b.depth_of(page)
            == expected.depth[page] by {
            Self::lemma_leaf_set_node(a, b, guest_paddr, entry, page, 0);
            Self::lemma_leaf_set_node(a, b, guest_paddr, entry, page, 1);
            Self::lemma_leaf_set_node(a, b, guest_paddr, entry, page, 2);
            if Self::same_prefix(page, guest_paddr, 0) {
                a.lemma_same_prefix_same_node(page, guest_paddr, 0);
            }
            if Self::same_prefix(page, guest_paddr, 1) {
                a.lemma_same_prefix_same_node(page, guest_paddr, 1);
            }
            if Self::same_prefix(page, guest_paddr, 2) {
                a.lemma_same_prefix_same_node(page, guest_paddr, 2);
            }
            assert(start@.depth[page] == start.depth_of(page));
        }
        assert forall|page: u64| guest_page(page) == page implies (#[trigger] b.leaf_of(page)
            is Some && b.leaf_of(page).unwrap().is_valid()) == expected.mappings.contains_key(page)
            && (expected.mappings.contains_key(page) ==> expected.mappings[page] == b.leaf_of(
            page,
        ).unwrap()) by {
            Self::lemma_leaf_set_node(a, b, guest_paddr, entry, page, 0);
            lemma_guest_page(page, guest_paddr);
            Table::lemma_index_of(page, 0);
            a.lemma_node_in_range(page, 0);
            if a.node(page, 0) == a.node(guest_paddr, 0) {
                a.lemma_same_node_same_prefix(page, guest_paddr, 0);
            }
            if Self::same_prefix(page, guest_paddr, 0) {
                a.lemma_same_prefix_same_node(page, guest_paddr, 0);
            }
            assert(start@.mappings.contains_key(page) == (start.leaf_of(page) is Some
                && start.leaf_of(page).unwrap().is_valid()));
        }
        assert(b@.depth =~= expected.depth);
        assert(b@.mappings =~= expected.mappings);
        assert(b@ =~= expected);
    }

    /// Maps the guest page of `guest_paddr` to the host page of `host_paddr`
    /// with `flags`, Valid and User.
    ///
    /// The walk goes from the root through the levels 3, 2 and 1; where an
    /// entry on the way is not valid, a fresh table is hung under it. The
    /// leaf entry is then written. A page that is mapped already is not
    /// mapped again, and a walk for which the pool has too few tables left is
    /// not begun: either way the tree stays as it was.
    pub fn map(&mut self, guest_paddr: u64, host_paddr: u64, flags: PTEFlags) -> (r: Result<
        (),
        MapError,
    >)
        requires
            old(self).wf(),
        ensures
            final(self).wf(),
            match old(self)@.map(
                guest_paddr,
                Entry::new(host_paddr, flags.union(PTEFlags::v()).union(PTEFlags::u())),
            ) {
                Ok(model) => r is Ok && final(self)@ == model && pool_mapped(
                    old(self).pool(),
                    final(self).pool(),
                    old(self)@.root,
                    guest_paddr,
                    Entry::new(host_paddr, flags.union(PTEFlags::v()).union(PTEFlags::u())),
                ),
                Err(e) => r == Err::<(), MapError>(e) && *final(self) == *old(self),
            },
    {
        let entry = Entry::new(host_paddr, flags | PTEFlags::v() | PTEFlags::u());
        let (depth, leaf) = self.probe(guest_paddr);
        proof {
            self.lemma_view(guest_paddr);
        }
        if let Some(e) = leaf {
            if e.is_valid() {
                return Err(MapError::AlreadyMapped);
            }
        }
        if 3 - depth > self.capacity - self.tables.len() {
            return Err(MapError::OutOfTables);
        }
        let ghost start = *self;
        let mut slot: usize = 0;
        let mut level: usize = 3;
        proof {
            Self::lemma_grown_same(start, guest_paddr, 3);
            reveal_with_fuel(GuestPageTable::node, 4);
        }
        while level > 0
            invariant
                start.wf(),
                self.wf(),
                level <= 3,
                Self::grown(start, *self, guest_paddr, level as int),
                Self::kept(start, *self, guest_paddr),
                self.node(guest_paddr, level as int) == Some(slot as int),
                start.tables@.len() + 3 - start.depth_of(guest_paddr) <= start.capacity,
                self.tables@.len() == start.tables@.len() + (if 3 - level > start.depth_of(
                    guest_paddr,
                ) {
                    3 - level - start.depth_of(guest_paddr)
                } else {
                    0
                }),
            decreases level,
        {
            let ghost mid = *self;
            proof {
                reveal_with_fuel(GuestPageTable::node, 4);
                assert(start.node(guest_paddr, level - 1) is Some ==> self.node(
                    guest_paddr,
                    level - 1,
                ) is Some);
                assert(self.node(guest_paddr, level - 1) is None <==> start.depth_of(guest_paddr)
                    <= 3 - level);
            }
            slot = self.descend(slot, guest_paddr, level);
            proof {
                Self::lemma_kept_further(start, mid, *self, guest_paddr, level - 1);
                Self::lemma_grown_further(start, mid, *self, guest_paddr, level - 1);
            }
            level = level - 1;
        }
        let ghost full = *self;
        proof {
            self.lemma_node_in_range(guest_paddr, 0);
            Table::lemma_index_of(guest_paddr, 0);
            flags.lemma_union(PTEFlags::v(), PTEFlags::v());
            flags.union(PTEFlags::v()).lemma_union(PTEFlags::u(), PTEFlags::v());
            Entry::lemma_new(host_paddr, flags.union(PTEFlags::v()).union(PTEFlags::u()));
        }
        let target = self.tables[slot].entry_by_addr(guest_paddr, 0);
        *target = entry;
        proof {
            Self::lemma_leaf_set(start, full, *self, guest_paddr, entry);
            Self::lemma_pool_mapped(start, full, *self, guest_paddr, entry);
        }
        Ok(())
    }
}

} // verus!
