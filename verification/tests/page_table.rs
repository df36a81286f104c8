use hypervisor::allocator::PageAllocator;
use hypervisor::entry::Entry;
use hypervisor::flags::PTEFlags;
use hypervisor::guest_page_table::{GuestPageTable, MapError};

fn allocator(start: u64, end: u64) -> PageAllocator {
    let mut a = PageAllocator::new();
    a.init(start, end).unwrap();
    a
}

#[test]
fn fresh_tree_maps_nothing() {
    let mut a = allocator(0x9000_0000, 0x9100_0000);
    let pt = GuestPageTable::new(&mut a, 16).unwrap();
    assert_eq!(pt.table_count(), 1);
    assert_eq!(pt.capacity(), 16);
    assert_eq!(pt.root_paddr(), 0x9000_0000);
    for i in 0..512u64 {
        assert_eq!(pt.walk(i << 39), None);
        assert_eq!(pt.translate(i << 39), None);
    }
}

#[test]
fn map_round_trip() {
    let mut a = allocator(0x9000_0000, 0x9100_0000);
    let mut pt = GuestPageTable::new(&mut a, 16).unwrap();
    pt.map(0x8020_0000, 0xa000_3000, PTEFlags::rw()).unwrap();
    let e = pt.walk(0x8020_0000).unwrap();
    assert_eq!(e.paddr(), 0xa000_3000);
    assert_eq!(e.flags(), PTEFlags::rw() | PTEFlags::v() | PTEFlags::u());
    assert_eq!(e.flags().bits(), 0x17);
    assert_eq!(e, Entry((0xa0003 << 10) | 0x17));
}

#[test]
fn first_map_adds_the_three_tables_of_its_walk() {
    let mut a = allocator(0x9000_0000, 0x9100_0000);
    let mut pt = GuestPageTable::new(&mut a, 16).unwrap();
    pt.map(0x8020_0000, 0xa000_0000, PTEFlags::rwx()).unwrap();
    assert_eq!(pt.table_count(), 4);
    // The next page shares the whole walk: no table is added.
    pt.map(0x8020_1000, 0xa000_1000, PTEFlags::rwx()).unwrap();
    assert_eq!(pt.table_count(), 4);
    // A page under another level-1 entry needs a leaf table of its own.
    pt.map(0x8040_0000, 0xa000_2000, PTEFlags::rwx()).unwrap();
    assert_eq!(pt.table_count(), 5);
    // A page under another level-2 entry needs two tables.
    pt.map(0xc000_0000, 0xa000_3000, PTEFlags::rwx()).unwrap();
    assert_eq!(pt.table_count(), 7);
    // A page under another root entry needs three.
    pt.map(0x80_0000_0000, 0xa000_4000, PTEFlags::rwx()).unwrap();
    assert_eq!(pt.table_count(), 10);
    // No other page became mapped.
    assert_eq!(pt.walk(0x8020_2000), None);
    assert_eq!(pt.walk(0x8040_1000), None);
    assert_eq!(pt.walk(0), None);
}

#[test]
fn double_map_is_refused() {
    let mut a = allocator(0x9000_0000, 0x9100_0000);
    let mut pt = GuestPageTable::new(&mut a, 16).unwrap();
    pt.map(0x8020_0000, 0xa000_0000, PTEFlags::rwx()).unwrap();
    assert_eq!(pt.map(0x8020_0000, 0xa000_0000, PTEFlags::rwx()), Err(MapError::AlreadyMapped));
    assert_eq!(pt.map(0x8020_0000, 0xb000_0000, PTEFlags::r()), Err(MapError::AlreadyMapped));
    assert_eq!(pt.map(0x8020_0fff, 0xb000_0000, PTEFlags::r()), Err(MapError::AlreadyMapped));
    // Bits above the four indices are not read: the address is the same page.
    assert_eq!(
        pt.map(0x1_0000_8020_0000, 0xb000_0000, PTEFlags::r()),
        Err(MapError::AlreadyMapped)
    );
    let e = pt.walk(0x8020_0000).unwrap();
    assert_eq!(e.paddr(), 0xa000_0000);
    assert_eq!(pt.table_count(), 4);
}

#[test]
fn activation_value_is_stable() {
    let mut a = allocator(0x9000_0000, 0x9100_0000);
    let mut pt = GuestPageTable::new(&mut a, 16).unwrap();
    let before = pt.hgatp();
    assert_eq!(before, (9u64 << 60) | 0x90000);
    pt.map(0x8020_0000, 0xa000_0000, PTEFlags::rwx()).unwrap();
    pt.map(0x7000_0000, 0xa000_1000, PTEFlags::r()).unwrap();
    let _ = pt.map(0x7000_0000, 0xa000_1000, PTEFlags::r());
    assert_eq!(pt.hgatp(), before);
    assert_eq!(pt.hgatp() >> 60, 9);
    assert_eq!(pt.hgatp() & 0xfff_ffff_ffff, pt.root_paddr() >> 12);
}

#[test]
fn translate_keeps_the_page_offset() {
    let mut a = allocator(0x9000_0000, 0x9100_0000);
    let mut pt = GuestPageTable::new(&mut a, 16).unwrap();
    let host_base = a.alloc_pages(4096).unwrap();
    assert_eq!(host_base, 0x9001_0000);
    pt.map(0x8020_0000, host_base, PTEFlags::rwx()).unwrap();
    let (host, flags) = pt.translate(0x8020_0abc).unwrap();
    assert_eq!(host, host_base + 0x0abc);
    assert!(flags.contains(PTEFlags::x()));
    assert!(flags.contains(PTEFlags::rwx()));
    assert!(flags.contains(PTEFlags::v()));
    assert!(flags.contains(PTEFlags::u()));
    assert!(!flags.contains(PTEFlags::d()));
}

#[test]
fn misaligned_host_address_is_truncated() {
    let mut a = allocator(0x9000_0000, 0x9100_0000);
    let mut pt = GuestPageTable::new(&mut a, 16).unwrap();
    pt.map(0x1000, 0xa000_0123, PTEFlags::r()).unwrap();
    assert_eq!(pt.translate(0x1004), Some((0xa000_0004, PTEFlags(0x13))));
}

#[test]
fn out_of_tables_changes_nothing() {
    let mut a = allocator(0x9000_0000, 0x9100_0000);
    let mut pt = GuestPageTable::new(&mut a, 5).unwrap();
    pt.map(0x8020_0000, 0xa000_0000, PTEFlags::rwx()).unwrap();
    assert_eq!(pt.table_count(), 4);
    // Two tables are needed, one is left.
    assert_eq!(pt.map(0xc000_0000, 0xa000_1000, PTEFlags::r()), Err(MapError::OutOfTables));
    assert_eq!(pt.table_count(), 4);
    assert_eq!(pt.walk(0xc000_0000), None);
    // One table is needed, one is left.
    pt.map(0x8040_0000, 0xa000_2000, PTEFlags::r()).unwrap();
    assert_eq!(pt.table_count(), 5);
}

#[test]
fn tree_needs_room_and_pages() {
    let mut a = allocator(0x9000_0000, 0x9000_4000);
    assert!(matches!(GuestPageTable::new(&mut a, 0), Err(MapError::OutOfTables)));
    assert!(matches!(GuestPageTable::new(&mut a, 5), Err(MapError::OutOfMemory)));
    // Nothing was taken by the failed attempts.
    assert_eq!(a.alloc_pages(0), Ok(0x9000_0000));
    let pt = GuestPageTable::new(&mut a, 4).unwrap();
    assert_eq!(pt.root_paddr(), 0x9000_0000);
    assert!(a.alloc_pages(1).is_err());
}

/// The walk that the hardware makes, over the tables as they lie in the pool.
fn walk_by_hand(pt: &GuestPageTable, guest_paddr: u64) -> Option<Entry> {
    let mut slot = 0usize;
    for level in [3usize, 2, 1] {
        let entry = pt.table(slot).unwrap().entry_at(guest_paddr, level);
        if !entry.is_valid() {
            return None;
        }
        assert_eq!(entry.flags(), PTEFlags::v());
        slot = ((entry.paddr() - pt.root_paddr()) / 4096) as usize;
        assert_eq!(pt.table_paddr(slot), Some(entry.paddr()));
    }
    let leaf = pt.table(slot).unwrap().entry_at(guest_paddr, 0);
    if leaf.is_valid() {
        Some(leaf)
    } else {
        None
    }
}

fn valid_entries(pt: &GuestPageTable, slot: usize) -> Vec<usize> {
    let table = pt.table(slot).unwrap();
    (0..512).filter(|i| table.0[*i].is_valid()).collect()
}

#[test]
fn root_starts_with_512_invalid_entries() {
    let mut a = allocator(0x9000_0000, 0x9100_0000);
    let pt = GuestPageTable::new(&mut a, 16).unwrap();
    let root = pt.table(0).unwrap();
    assert_eq!(root.0.len(), 512);
    assert!(root.0.iter().all(|e| !e.is_valid()));
    assert_eq!(pt.table_paddr(0), Some(0x9000_0000));
    assert!(pt.table(1).is_none());
    assert_eq!(pt.table_paddr(1), None);
}

#[test]
fn first_map_touches_one_branch() {
    let mut a = allocator(0x9000_0000, 0x9100_0000);
    let mut pt = GuestPageTable::new(&mut a, 16).unwrap();
    // Indices 1, 2, 3 and 4 from the root downward.
    let guest = (1u64 << 39) | (2 << 30) | (3 << 21) | (4 << 12);
    pt.map(guest, 0xa000_0000, PTEFlags::r()).unwrap();
    assert_eq!(pt.table_count(), 4);
    assert_eq!(valid_entries(&pt, 0), vec![1]);
    assert_eq!(valid_entries(&pt, 1), vec![2]);
    assert_eq!(valid_entries(&pt, 2), vec![3]);
    assert_eq!(valid_entries(&pt, 3), vec![4]);
    assert_eq!(pt.table(0).unwrap().0[1].paddr(), 0x9000_1000);
    assert_eq!(pt.table(1).unwrap().0[2].paddr(), 0x9000_2000);
    assert_eq!(pt.table(2).unwrap().0[3].paddr(), 0x9000_3000);
    assert_eq!(pt.table(3).unwrap().0[4], Entry((0xa0000 << 10) | 0x13));
    assert!(pt.table(4).is_none());
}

#[test]
fn walk_agrees_with_the_tables() {
    let mut a = allocator(0x9000_0000, 0x9100_0000);
    let mut pt = GuestPageTable::new(&mut a, 16).unwrap();
    let pages = [0x8020_0000u64, 0x8020_1000, 0x8040_0000, 0xc000_0000, 0x80_0000_0000, 0];
    for (i, page) in pages.iter().enumerate() {
        pt.map(*page, 0xa000_0000 + 4096 * i as u64, PTEFlags::rw()).unwrap();
    }
    for (i, page) in pages.iter().enumerate() {
        let found = pt.walk(*page).unwrap();
        assert_eq!(found.paddr(), 0xa000_0000 + 4096 * i as u64);
        assert_eq!(walk_by_hand(&pt, *page), Some(found));
    }
    for other in [0x8020_2000u64, 0x8060_0000, 0x1_0000_0000, 0x100_0000_0000, 0x1000] {
        assert_eq!(pt.walk(other), None);
        assert_eq!(walk_by_hand(&pt, other), None);
    }
}
