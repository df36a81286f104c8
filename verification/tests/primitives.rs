use hypervisor::allocator::{AllocError, PageAllocator};
use hypervisor::entry::Entry;
use hypervisor::flags::PTEFlags;
use hypervisor::table::Table;

#[test]
fn flag_bits() {
    assert_eq!(PTEFlags::v().bits(), 1 << 0);
    assert_eq!(PTEFlags::r().bits(), 1 << 1);
    assert_eq!(PTEFlags::w().bits(), 1 << 2);
    assert_eq!(PTEFlags::x().bits(), 1 << 3);
    assert_eq!(PTEFlags::u().bits(), 1 << 4);
    assert_eq!(PTEFlags::g().bits(), 1 << 5);
    assert_eq!(PTEFlags::a().bits(), 1 << 6);
    assert_eq!(PTEFlags::d().bits(), 1 << 7);
    assert_eq!(PTEFlags::rw(), PTEFlags::r() | PTEFlags::w());
    assert_eq!(PTEFlags::rx(), PTEFlags::r() | PTEFlags::x());
    assert_eq!(PTEFlags::rwx(), PTEFlags::r() | PTEFlags::w() | PTEFlags::x());
    assert_eq!(PTEFlags::empty().bits(), 0);
    assert_eq!(PTEFlags::all().bits(), 0xff);
}

#[test]
fn flag_sets() {
    let f = PTEFlags::r().union(PTEFlags::x());
    assert_eq!(f, PTEFlags::rx());
    assert!(f.contains(PTEFlags::r()));
    assert!(f.contains(PTEFlags::x()));
    assert!(f.contains(PTEFlags::empty()));
    assert!(!f.contains(PTEFlags::w()));
    assert!(!f.contains(PTEFlags::rwx()));
    assert_eq!(PTEFlags::from_bits_truncate(0xffff_ffff_ffff_ff06), PTEFlags(0x06));
    assert_eq!(PTEFlags::from_bits_truncate(f.bits()), f);
}

#[test]
fn entry_encoding() {
    let e = Entry::new(0x8020_0000, PTEFlags::rwx() | PTEFlags::v() | PTEFlags::u());
    assert_eq!(e.0, (0x80200 << 10) | 0x1f);
    assert_eq!(e.paddr(), 0x8020_0000);
    assert_eq!(e.flags(), PTEFlags(0x1f));
    assert!(e.is_valid());
}

#[test]
fn entry_drops_page_offset() {
    let e = Entry::new(0x8020_0abc, PTEFlags::r());
    assert_eq!(e.0, (0x80200 << 10) | 0x02);
    assert_eq!(e.paddr(), 0x8020_0000);
    assert!(!e.is_valid());
}

#[test]
fn entry_flags_mask_out_address() {
    let e = Entry(0xffff_ffff_ffff_fc00);
    assert_eq!(e.flags(), PTEFlags::empty());
    assert!(!e.is_valid());
    let e = Entry(0x3ff);
    assert_eq!(e.flags(), PTEFlags::all());
    assert_eq!(e.paddr(), 0);
    assert!(!Entry(0).is_valid());
    assert!(Entry(1).is_valid());
}

#[test]
fn fresh_table_is_invalid() {
    let t = Table::allocate();
    assert_eq!(t.0.len(), 512);
    for e in t.0.iter() {
        assert_eq!(*e, Entry(0));
        assert!(!e.is_valid());
    }
}

#[test]
fn table_index_is_a_nine_bit_slice() {
    let mut t = Table::allocate();
    // 0x8020_0000: index 0 at level 0, 1 at level 1, 2 at level 2, 0 at level 3.
    *t.entry_by_addr(0x8020_0000, 1) = Entry(0x11);
    *t.entry_by_addr(0x8020_0000, 2) = Entry(0x22);
    *t.entry_by_addr(0xffff_ffff_ffff_ffff, 3) = Entry(0x33);
    assert_eq!(t.0[1], Entry(0x11));
    assert_eq!(t.0[2], Entry(0x22));
    assert_eq!(t.0[511], Entry(0x33));
    assert_eq!(t.entry_at(0x8020_0000, 1), Entry(0x11));
    assert_eq!(t.entry_at(0x8020_0fff, 2), Entry(0x22));
    assert_eq!(t.entry_at(0x8020_0000, 0), Entry(0));
    assert_eq!(t.entry_at(0x8020_0000, 3), Entry(0));
    assert_eq!(t.entry_at(0x0000_ff80_0000_0000, 3), Entry(0x33));
    let changed = t.0.iter().filter(|e| **e != Entry(0)).count();
    assert_eq!(changed, 3);
}

#[test]
fn allocator_is_set_once() {
    let mut a = PageAllocator::new();
    assert_eq!(a.alloc_pages(1), Err(AllocError::OutOfMemory));
    assert_eq!(a.init(0x2000, 0x1000), Err(AllocError::InvalidRegion));
    assert_eq!(a.init(0x1001, 0x1fff), Err(AllocError::InvalidRegion));
    assert_eq!(a.init(0x1001, 0x4fff), Ok(()));
    assert_eq!(a.init(0x1000, 0x8000), Err(AllocError::AlreadyInitialized));
    // The whole pages of 0x1001..0x4fff are 0x2000 and 0x3000.
    assert_eq!(a.alloc_pages(4096), Ok(0x2000));
    assert_eq!(a.alloc_pages(1), Ok(0x3000));
    assert_eq!(a.alloc_pages(1), Err(AllocError::OutOfMemory));
}

#[test]
fn allocator_rounds_up_to_pages() {
    let mut a = PageAllocator::new();
    a.init(0x10_0000, 0x20_0000).unwrap();
    assert_eq!(a.alloc_pages(1), Ok(0x10_0000));
    assert_eq!(a.alloc_pages(4097), Ok(0x10_1000));
    assert_eq!(a.alloc_pages(0), Ok(0x10_3000));
    assert_eq!(a.alloc_pages(0x10_0000), Err(AllocError::OutOfMemory));
    assert_eq!(a.alloc_pages(0xf_d000), Ok(0x10_3000));
    assert_eq!(a.alloc_pages(1), Err(AllocError::OutOfMemory));
}
