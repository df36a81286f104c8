use hypervisor::allocator::PageAllocator;
use hypervisor::flags::PTEFlags;
use hypervisor::guest_page_table::{GuestPageTable, MapError};
use hypervisor::linux_loader::{
    build_device_tree, copy_and_map, load_image, load_linux_kernel, place_device_tree, LoadError,
    RiscvImageHeader, DTB_MAX_SIZE, GUEST_BASE_ADDR, GUEST_DTB_ADDR, IMAGE_MAGIC2, MEMORY_SIZE,
};

fn setup(pages: u64, tables: usize) -> (PageAllocator, GuestPageTable) {
    let mut a = PageAllocator::new();
    a.init(0x1_0000_0000, 0x1_0000_0000 + 4096 * pages).unwrap();
    let pt = GuestPageTable::new(&mut a, tables).unwrap();
    (a, pt)
}

fn image(len: usize) -> Vec<u8> {
    let mut bytes = vec![0u8; len];
    bytes[0..4].copy_from_slice(&0x0001_0203u32.to_le_bytes());
    bytes[4..8].copy_from_slice(&0x0405_0607u32.to_le_bytes());
    bytes[8..16].copy_from_slice(&0x20_0000u64.to_le_bytes());
    bytes[16..24].copy_from_slice(&0x0123_4567_89ab_cdefu64.to_le_bytes());
    bytes[24..32].copy_from_slice(&0x1u64.to_le_bytes());
    bytes[32..36].copy_from_slice(&0x2u32.to_le_bytes());
    bytes[48..56].copy_from_slice(&0x5643_5349_52u64.to_le_bytes());
    bytes[56..60].copy_from_slice(&[0x52, 0x53, 0x43, 0x05]);
    bytes[60..64].copy_from_slice(&0xdead_beefu32.to_le_bytes());
    bytes
}

#[test]
fn header_fields_are_little_endian() {
    let h = RiscvImageHeader::parse(&image(64)).unwrap();
    assert_eq!(h.code0, 0x0001_0203);
    assert_eq!(h.code1, 0x0405_0607);
    assert_eq!(h.text_offset, 0x20_0000);
    assert_eq!(h.image_size, 0x0123_4567_89ab_cdef);
    assert_eq!(h.flags, 1);
    assert_eq!(h.version, 2);
    assert_eq!(h.reserved1, 0);
    assert_eq!(h.reserved2, 0);
    assert_eq!(h.magic, 0x5643_5349_52);
    assert_eq!(h.magic2, IMAGE_MAGIC2);
    assert_eq!(h.magic2, 0x0543_5352);
    assert_eq!(h.reserved3, 0xdead_beef);
}

#[test]
fn header_is_checked() {
    assert_eq!(RiscvImageHeader::parse(&[]), Err(LoadError::ImageTooShort));
    assert_eq!(RiscvImageHeader::parse(&image(64)[..63]), Err(LoadError::ImageTooShort));
    let mut bad = image(64);
    bad[59] = 0x06;
    assert_eq!(RiscvImageHeader::parse(&bad), Err(LoadError::InvalidMagic));
    // The magic is read from its own place, not from the first magic field.
    let mut moved = vec![0u8; 64];
    moved[48..52].copy_from_slice(&[0x52, 0x53, 0x43, 0x05]);
    assert_eq!(RiscvImageHeader::parse(&moved), Err(LoadError::InvalidMagic));
}

#[test]
fn invalid_magic_maps_nothing() {
    let (mut a, mut pt) = setup(20000, 64);
    let mut bad = image(4096);
    bad[56] = 0;
    let r = load_linux_kernel(&mut pt, &mut a, &bad);
    assert!(matches!(r, Err(LoadError::InvalidMagic)));
    assert_eq!(pt.table_count(), 1);
    assert_eq!(pt.walk(GUEST_BASE_ADDR), None);
    assert_eq!(pt.walk(GUEST_DTB_ADDR), None);
    // The allocator still hands out the page after the pool of the tree.
    assert_eq!(a.alloc_pages(1), Ok(0x1_0000_0000 + 64 * 4096));
}

#[test]
fn short_image_maps_nothing() {
    let (mut a, mut pt) = setup(20000, 64);
    let r = load_linux_kernel(&mut pt, &mut a, &[0u8; 10]);
    assert!(matches!(r, Err(LoadError::ImageTooShort)));
    assert_eq!(pt.table_count(), 1);
}

#[test]
fn region_takes_data_up_to_its_length() {
    let (mut a, mut pt) = setup(100, 16);
    let data = [7u8; 10000];
    assert_eq!(
        copy_and_map(&mut pt, &mut a, &data, 0x4000_0000, 9999, PTEFlags::r()),
        Err(LoadError::DataBeyondRegion)
    );
    assert_eq!(pt.table_count(), 1);
    assert_eq!(pt.walk(0x4000_0000), None);
    let host = copy_and_map(&mut pt, &mut a, &data, 0x4000_0000, 10000, PTEFlags::r()).unwrap();
    assert_eq!(host, 0x1_0000_0000 + 16 * 4096);
    let (mut a, mut pt) = setup(100, 16);
    let host = copy_and_map(&mut pt, &mut a, &data, 0x4000_0000, 10001, PTEFlags::r()).unwrap();
    assert_eq!(host, 0x1_0000_0000 + 16 * 4096);
}

#[test]
fn region_is_mapped_page_by_page() {
    let (mut a, mut pt) = setup(100, 16);
    let data = [7u8; 100];
    // 3 pages and one byte: 4 pages.
    let len = 3 * 4096 + 1;
    let host = copy_and_map(&mut pt, &mut a, &data, 0x4000_0000, len, PTEFlags::rw()).unwrap();
    let leaf = PTEFlags::rw() | PTEFlags::v() | PTEFlags::u();
    for k in 0..4u64 {
        assert_eq!(pt.translate(0x4000_0000 + 4096 * k), Some((host + 4096 * k, leaf)));
        assert_eq!(pt.translate(0x4000_0fff + 4096 * k), Some((host + 4096 * k + 0xfff, leaf)));
    }
    assert_eq!(pt.translate(0x4000_0000 + 4096 * 4), None);
    assert_eq!(pt.translate(0x3fff_ffff), None);
    assert_eq!(pt.table_count(), 4);
    // The four pages are gone from the allocator, and no more.
    assert_eq!(a.alloc_pages(1), Ok(host + 4 * 4096));
}

#[test]
fn empty_region_maps_nothing() {
    let (mut a, mut pt) = setup(100, 16);
    let host = copy_and_map(&mut pt, &mut a, &[], 0x4000_0000, 0, PTEFlags::rw()).unwrap();
    assert_eq!(host, 0x1_0000_0000 + 16 * 4096);
    assert_eq!(pt.table_count(), 1);
    assert_eq!(pt.walk(0x4000_0000), None);
    assert_eq!(a.alloc_pages(1), Ok(host));
}

#[test]
fn region_failures() {
    let (mut a, mut pt) = setup(20, 16);
    assert_eq!(
        copy_and_map(&mut pt, &mut a, &[], 0xffff_ffff_ffff_f000, 4097, PTEFlags::r()),
        Err(LoadError::RegionOverflow)
    );
    assert_eq!(
        copy_and_map(&mut pt, &mut a, &[], 0xffff_ffff_ffff_f000, 4096, PTEFlags::r()),
        Ok(0x1_0000_0000 + 16 * 4096)
    );
    // Three pages are left.
    assert_eq!(
        copy_and_map(&mut pt, &mut a, &[], 0x4000_0000, 4 * 4096, PTEFlags::r()),
        Err(LoadError::OutOfMemory)
    );
    assert_eq!(pt.walk(0x4000_0000), None);
    // The second page of the region is mapped already: the first gets mapped.
    pt.map(0x5000_1000, 0x1000, PTEFlags::r()).unwrap();
    assert_eq!(
        copy_and_map(&mut pt, &mut a, &[], 0x5000_0000, 3 * 4096, PTEFlags::r()),
        Err(LoadError::Mapping(MapError::AlreadyMapped))
    );
    assert!(pt.walk(0x5000_0000).is_some());
    assert_eq!(pt.walk(0x5000_2000), None);
    assert_eq!(a.alloc_pages(1), Err(hypervisor::allocator::AllocError::OutOfMemory));
}

#[test]
fn region_runs_out_of_tables() {
    let (mut a, mut pt) = setup(2000, 5);
    // 513 pages from a 2 MiB boundary: two leaf tables, five tables in all.
    assert_eq!(
        copy_and_map(&mut pt, &mut a, &[], 0x4000_0000, 513 * 4096, PTEFlags::r()),
        Ok(0x1_0000_0000 + 5 * 4096)
    );
    assert_eq!(pt.table_count(), 5);
    assert_eq!(
        copy_and_map(&mut pt, &mut a, &[], 0x4040_0000, 4096, PTEFlags::r()),
        Err(LoadError::Mapping(MapError::OutOfTables))
    );
}

#[test]
fn device_tree_fits_its_ceiling() {
    let dtb = build_device_tree().unwrap();
    assert!(dtb.len() <= 0x10000);
    assert!(dtb.len() <= DTB_MAX_SIZE);
    assert_eq!(&dtb[0..4], &[0xd0, 0x0d, 0xfe, 0xed]);
    let total = u32::from_be_bytes([dtb[4], dtb[5], dtb[6], dtb[7]]);
    assert_eq!(total as usize, dtb.len());
}

fn reference_tree() -> Vec<u8> {
    let mut fdt = vm_fdt::FdtWriter::new().unwrap();
    let root = fdt.begin_node("").unwrap();
    fdt.property_string("compatible", "riscv-virtio").unwrap();
    fdt.property_u32("#address-cells", 2).unwrap();
    fdt.property_u32("#size-cells", 2).unwrap();
    let chosen = fdt.begin_node("chosen").unwrap();
    fdt.property_string("bootargs", "console=hvc earlycon=sbi panic=-1").unwrap();
    fdt.end_node(chosen).unwrap();
    let memory = fdt.begin_node("memory@2149580800").unwrap();
    fdt.property_string("device_type", "memory").unwrap();
    fdt.property_array_u64("reg", &[0x8020_0000, 0x400_0000]).unwrap();
    fdt.end_node(memory).unwrap();
    let cpus = fdt.begin_node("cpus").unwrap();
    fdt.property_u32("#address-cells", 1).unwrap();
    fdt.property_u32("#size-cells", 0).unwrap();
    fdt.property_u32("timebase-frequency", 10_000_000).unwrap();
    let cpu = fdt.begin_node("cpu@0").unwrap();
    fdt.property_string("device_type", "cpu").unwrap();
    fdt.property_string("compatible", "riscv").unwrap();
    fdt.property_u32("reg", 0).unwrap();
    fdt.property_string("status", "okay").unwrap();
    fdt.property_string("mmu-type", "riscv,sv48").unwrap();
    fdt.property_string("riscv,isa", "rv64imafdc").unwrap();
    fdt.end_node(cpu).unwrap();
    fdt.end_node(cpus).unwrap();
    fdt.end_node(root).unwrap();
    fdt.finish().unwrap()
}

#[test]
fn device_tree_is_the_expected_blob() {
    assert_eq!(build_device_tree().unwrap(), reference_tree());
}

fn find(haystack: &[u8], needle: &[u8]) -> Option<usize> {
    haystack.windows(needle.len()).position(|w| w == needle)
}

#[test]
fn device_tree_holds_its_nodes_in_order() {
    let dtb = build_device_tree().unwrap();
    let chosen = find(&dtb, b"\0\0\0\x01chosen\0").unwrap();
    let memory = find(&dtb, b"\0\0\0\x01memory@2149580800\0").unwrap();
    let cpus = find(&dtb, b"\0\0\0\x01cpus\0").unwrap();
    let cpu = find(&dtb, b"\0\0\0\x01cpu@0\0").unwrap();
    assert!(chosen < memory && memory < cpus && cpus < cpu);
    assert!(find(&dtb, b"console=hvc earlycon=sbi panic=-1\0").is_some());
    assert!(find(&dtb, b"rv64imafdc\0").is_some());
    // reg of the memory node: base and size, big-endian.
    let reg = [0, 0, 0, 0, 0x80, 0x20, 0, 0, 0, 0, 0, 0, 0x04, 0, 0, 0];
    assert!(find(&dtb, &reg).is_some());
    // timebase-frequency
    assert!(find(&dtb, &10_000_000u32.to_be_bytes()).is_some());
}

#[test]
fn device_tree_is_placed_read_only() {
    let (mut a, mut pt) = setup(100, 16);
    let dtb = build_device_tree().unwrap();
    let host = place_device_tree(&mut pt, &mut a, &dtb).unwrap();
    let leaf = PTEFlags::r() | PTEFlags::v() | PTEFlags::u();
    assert_eq!(pt.translate(GUEST_DTB_ADDR), Some((host, leaf)));
    let last = (dtb.len() as u64 - 1) / 4096;
    assert_eq!(
        pt.translate(GUEST_DTB_ADDR + 4096 * last),
        Some((host + 4096 * last, leaf))
    );
    assert_eq!(pt.translate(GUEST_DTB_ADDR + 4096 * (last + 1)), None);
}

#[test]
fn oversized_device_tree_is_refused() {
    let (mut a, mut pt) = setup(100, 16);
    let blob = vec![0u8; 0x10001];
    assert_eq!(place_device_tree(&mut pt, &mut a, &blob), Err(LoadError::DeviceTreeTooLarge));
    assert_eq!(pt.walk(GUEST_DTB_ADDR), None);
    assert_eq!(pt.table_count(), 1);
    let blob = vec![0u8; 0x10000];
    let host = place_device_tree(&mut pt, &mut a, &blob).unwrap();
    assert_eq!(pt.translate(GUEST_DTB_ADDR + 0xffff).unwrap().0, host + 0xffff);
    assert_eq!(pt.translate(GUEST_DTB_ADDR + 0x10000), None);
}

#[test]
fn oversized_image_is_refused() {
    let (mut a, mut pt) = setup(20000, 64);
    let big = image(MEMORY_SIZE + 1);
    assert_eq!(load_image(&mut pt, &mut a, &big), Err(LoadError::ImageTooLarge));
    assert_eq!(pt.table_count(), 1);
    assert_eq!(pt.walk(GUEST_BASE_ADDR), None);
}

#[test]
fn kernel_is_loaded() {
    let (mut a, mut pt) = setup(20000, 64);
    let img = image(0x5000);
    let hgatp = pt.hgatp();
    let k = load_linux_kernel(&mut pt, &mut a, &img).unwrap();
    assert_eq!(k.header.text_offset, 0x20_0000);
    assert_eq!(k.header.image_size, 0x0123_4567_89ab_cdef);
    assert_eq!(k.kernel_host_addr, 0x1_0000_0000 + 64 * 4096);
    assert_eq!(k.dtb_host_addr, k.kernel_host_addr + MEMORY_SIZE as u64);
    assert_eq!(k.dtb, build_device_tree().unwrap());
    let rwx = PTEFlags::rwx() | PTEFlags::v() | PTEFlags::u();
    assert_eq!(rwx, PTEFlags(0x1f));
    assert_eq!(pt.translate(GUEST_BASE_ADDR), Some((k.kernel_host_addr, rwx)));
    assert_eq!(pt.translate(GUEST_BASE_ADDR + 0x1234), Some((k.kernel_host_addr + 0x1234, rwx)));
    let end = GUEST_BASE_ADDR + MEMORY_SIZE as u64;
    assert_eq!(
        pt.translate(end - 1),
        Some((k.kernel_host_addr + MEMORY_SIZE as u64 - 1, rwx))
    );
    assert_eq!(pt.translate(end), None);
    assert_eq!(pt.translate(GUEST_BASE_ADDR - 1), None);
    assert_eq!(pt.translate(GUEST_DTB_ADDR + 4), Some((k.dtb_host_addr + 4, PTEFlags(0x13))));
    // Root, one level-2 table, two level-1 tables, 32 leaf tables for the
    // kernel and one for the blob.
    assert_eq!(pt.table_count(), 37);
    assert_eq!(pt.hgatp(), hgatp);
}

#[test]
fn kernel_needs_its_memory() {
    let (mut a, mut pt) = setup(16000 + 64, 64);
    let r = load_linux_kernel(&mut pt, &mut a, &image(64));
    assert!(matches!(r, Err(LoadError::OutOfMemory)));
    assert_eq!(pt.table_count(), 1);
}

#[test]
fn second_load_finds_the_kernel_mapped() {
    let (mut a, mut pt) = setup(40000, 64);
    load_linux_kernel(&mut pt, &mut a, &image(64)).unwrap();
    let r = load_linux_kernel(&mut pt, &mut a, &image(64));
    assert!(matches!(r, Err(LoadError::Mapping(MapError::AlreadyMapped))));
}

#[test]
fn device_tree_is_built_alike_each_time() {
    let first = build_device_tree().unwrap();
    let second = build_device_tree().unwrap();
    assert_eq!(first, second);
    // 60 bytes of frame and 25 items of at most 112 bytes each.
    assert!(first.len() <= 60 + 25 * 112);
}
