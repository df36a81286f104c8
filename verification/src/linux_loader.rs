//! The loader: the header of a kernel image, the regions of guest memory,
//! the device tree, and the load that puts them together.

use vstd::prelude::*;
use crate::allocator::{pages_for, PageAllocator};
use crate::entry::Entry;
use crate::fdt::{
    be_u32, be_u64_cells, decimal, fdt_begin_node, fdt_blob, fdt_end_node, fdt_finish, fdt_items,
    fdt_new, fdt_node_depth, fdt_property_array_u64, fdt_property_string, fdt_property_u32,
    fdt_size, item_size, node_ended, node_name_accepted, node_name_split, open_nodes,
    property_accepted, property_name_accepted, string_value, unit_name, FdtItem,
};
use vstd::utf8::{is_ascii_chars, is_ascii_chars_encode_utf8};
use crate::flags::PTEFlags;
use crate::guest_page_table::{guest_page, GuestPageTable, MapError, PageTableModel};

verus! {

/// Guest address at which the kernel image is placed.
pub const GUEST_BASE_ADDR: u64 = 0x8020_0000;

/// Bytes of guest memory that are reserved for the kernel, from
/// `GUEST_BASE_ADDR` upward.
pub const MEMORY_SIZE: usize = 64 * 1024 * 1024;

/// Guest address at which the device tree blob is placed.
pub const GUEST_DTB_ADDR: u64 = 0x7000_0000;

/// The most bytes that a device tree blob may have.
pub const DTB_MAX_SIZE: usize = 0x10000;

/// Bytes of the header that a kernel image begins with.
pub const IMAGE_HEADER_SIZE: usize = 64;

/// The second magic number of the header: `RSC\x05`.
pub const IMAGE_MAGIC2: u32 = 0x0543_5352;

/// Why a load was given up.
#[derive(Clone, Copy, Debug, PartialEq, Eq, Structural)]
pub enum LoadError {
    /// The image is shorter than its header.
    ImageTooShort,
    /// The second magic number of the header is not the expected one.
    InvalidMagic,
    /// The image is longer than the memory reserved for it.
    ImageTooLarge,
    /// The data is longer than the region it is to be placed in.
    DataBeyondRegion,
    /// The region runs over the end of the guest's address space.
    RegionOverflow,
    /// The allocator has too few pages left for the region.
    OutOfMemory,
    /// A page of the region could not be mapped.
    Mapping(MapError),
    /// The writer refused the device tree. The tree of the guest is one
    /// that it accepts, so this does not come from a load.
    DeviceTree,
    /// The device tree blob is longer than `DTB_MAX_SIZE`.
    DeviceTreeTooLarge,
}

/// Whether the error is one that comes before anything is changed: the
/// refusal of an image, of data, of a region or of a blob, or the want of
/// pages for a region.
pub open spec fn found_untouched(error: LoadError) -> bool {
    error != LoadError::DeviceTree && !(error is Mapping)
}

/// The little-endian number in the four bytes from `at`.
pub open spec fn le_u32(bytes: Seq<u8>, at: int) -> u32 {
    (bytes[at] as u32) | (bytes[at + 1] as u32) << 8 | (bytes[at + 2] as u32) << 16 | (bytes[at
        + 3] as u32) << 24
}

/// The little-endian number in the eight bytes from `at`.
pub open spec fn le_u64(bytes: Seq<u8>, at: int) -> u64 {
    (le_u32(bytes, at) as u64) | (le_u32(bytes, at + 4) as u64) << 32
}

fn read_le_u32(bytes: &[u8], at: usize) -> (value: u32)
    requires
        at + 4 <= bytes@.len(),
    ensures
        value == le_u32(bytes@, at as int),
{
    (bytes[at] as u32) | (bytes[at + 1] as u32) << 8 | (bytes[at + 2] as u32) << 16 | (bytes[at
        + 3] as u32) << 24
}

fn read_le_u64(bytes: &[u8], at: usize) -> (value: u64)
    requires
        at + 8 <= bytes@.len(),
    ensures
        value == le_u64(bytes@, at as int),
{
    assert(at + 8 <= bytes.len());
    (read_le_u32(bytes, at) as u64) | (read_le_u32(bytes, at + 4) as u64) << 32
}

/// The header of a RISC-V Linux kernel image: 64 bytes, every field
/// little-endian.
#[derive(Clone, Copy, Debug, PartialEq, Eq, Structural)]
pub struct RiscvImageHeader {
    pub code0: u32,
    pub code1: u32,
    pub text_offset: u64,
    pub image_size: u64,
    pub flags: u64,
    pub version: u32,
    pub reserved1: u32,
    pub reserved2: u64,
    pub magic: u64,
    pub magic2: u32,
    pub reserved3: u32,
}

impl RiscvImageHeader {
    /// The fields as they lie in the first 64 bytes.
    pub open spec fn decode(bytes: Seq<u8>) -> RiscvImageHeader {
        RiscvImageHeader {
            code0: le_u32(bytes, 0),
            code1: le_u32(bytes, 4),
            text_offset: le_u64(bytes, 8),
            image_size: le_u64(bytes, 16),
            flags: le_u64(bytes, 24),
            version: le_u32(bytes, 32),
            reserved1: le_u32(bytes, 36),
            reserved2: le_u64(bytes, 40),
            magic: le_u64(bytes, 48),
            magic2: le_u32(bytes, 56),
            reserved3: le_u32(bytes, 60),
        }
    }

    /// What `parse` makes of an image.
    pub open spec fn parsed(bytes: Seq<u8>) -> Result<RiscvImageHeader, LoadError> {
        if bytes.len() < 64 {
            Err(LoadError::ImageTooShort)
        } else if le_u32(bytes, 56) != IMAGE_MAGIC2 {
            Err(LoadError::InvalidMagic)
        } else {
            Ok(Self::decode(bytes))
        }
    }

    /// Reads the header of an image. An image that is shorter than a header
    /// has none, and one whose second magic number is not the expected one
    /// is not a kernel image.
    pub fn parse(image: &[u8]) -> (r: Result<RiscvImageHeader, LoadError>)
        ensures
            r == Self::parsed(image@),
    {
        if image.len() < IMAGE_HEADER_SIZE {
            return Err(LoadError::ImageTooShort);
        }
        let magic2 = read_le_u32(image, 56);
        if magic2 != IMAGE_MAGIC2 {
            return Err(LoadError::InvalidMagic);
        }
        Ok(
            RiscvImageHeader {
                code0: read_le_u32(image, 0),
                code1: read_le_u32(image, 4),
                text_offset: read_le_u64(image, 8),
                image_size: read_le_u64(image, 16),
                flags: read_le_u64(image, 24),
                version: read_le_u32(image, 32),
                reserved1: read_le_u32(image, 36),
                reserved2: read_le_u64(image, 40),
                magic: read_le_u64(image, 48),
                magic2,
                reserved3: read_le_u32(image, 60),
            },
        )
    }
}

/// What a load works on: the tree of the guest, and the pages that the
/// allocator has left.
pub struct LoadState {
    /// The translation tree.
    pub table: PageTableModel,
    /// The address of the allocator's next block.
    pub next: u64,
    /// The number of pages that the allocator has left.
    pub free: nat,
}

/// The leaf flags of a mapping that was asked for with `flags`.
pub open spec fn leaf_flags(flags: PTEFlags) -> PTEFlags {
    flags.union(PTEFlags::v()).union(PTEFlags::u())
}

/// The tree after the first `pages` pages from `guest_addr` were mapped, one
/// after another, to the pages from `host_addr`, and the error that ended
/// the mapping if one did. After an error no further page is mapped.
pub open spec fn map_pages(
    model: PageTableModel,
    guest_addr: u64,
    host_addr: u64,
    flags: PTEFlags,
    pages: nat,
) -> (PageTableModel, Option<MapError>)
    decreases pages,
{
    if pages == 0 {
        (model, None)
    } else {
        let (before, failed) = map_pages(model, guest_addr, host_addr, flags, (pages - 1) as nat);
        if failed is Some {
            (before, failed)
        } else {
            match before.map(
                (guest_addr + 4096 * (pages - 1)) as u64,
                Entry::new((host_addr + 4096 * (pages - 1)) as u64, leaf_flags(flags)),
            ) {
                Ok(after) => (after, None),
                Err(e) => (before, Some(e)),
            }
        }
    }
}

/// What `copy_and_map` does to the tree and the allocator, and what it
/// returns: the host address of the region, or the first thing that went
/// wrong. Until the pages have been taken from the allocator nothing
/// changes.
pub open spec fn load_region(
    state: LoadState,
    data_len: nat,
    guest_addr: u64,
    len: nat,
    flags: PTEFlags,
) -> (LoadState, Result<u64, LoadError>) {
    if data_len > len {
        (state, Err(LoadError::DataBeyondRegion))
    } else if guest_addr + len > 0x1_0000_0000_0000_0000 {
        (state, Err(LoadError::RegionOverflow))
    } else if pages_for(len) > state.free {
        (state, Err(LoadError::OutOfMemory))
    } else {
        let (table, failed) = map_pages(state.table, guest_addr, state.next, flags, pages_for(len));
        (
            LoadState {
                table,
                next: (state.next + 4096 * pages_for(len)) as u64,
                free: (state.free - pages_for(len)) as nat,
            },
            match failed {
                Some(e) => Err(LoadError::Mapping(e)),
                None => Ok(state.next),
            },
        )
    }
}

/// The state that a load finds or leaves.
pub open spec fn load_state(table: GuestPageTable, allocator: PageAllocator) -> LoadState {
    LoadState { table: table@, next: allocator.next_addr(), free: allocator.free_pages() }
}

proof fn lemma_map_pages_failed(
    model: PageTableModel,
    guest_addr: u64,
    host_addr: u64,
    flags: PTEFlags,
    failed_at: nat,
    pages: nat,
)
    requires
        failed_at <= pages,
        map_pages(model, guest_addr, host_addr, flags, failed_at).1 is Some,
    ensures
        map_pages(model, guest_addr, host_addr, flags, pages) == map_pages(
            model,
            guest_addr,
            host_addr,
            flags,
            failed_at,
        ),
    decreases pages,
{
    if failed_at < pages {
        lemma_map_pages_failed(model, guest_addr, host_addr, flags, failed_at, (pages - 1) as nat);
    }
}

/// Reserves a region of `len` bytes of host memory for `data` and maps the
/// guest pages from `guest_addr` to it, page by page, with `flags`. Gives
/// the host address of the region, which is as long as its pages.
///
/// The library holds no memory of its own: it is for the caller to put
/// `data` at the start of the region. Data that is longer than the region
/// is refused before anything is done.
#[verifier::loop_isolation(false)]
pub fn copy_and_map(
    table: &mut GuestPageTable,
    allocator: &mut PageAllocator,
    data: &[u8],
    guest_addr: u64,
    len: usize,
    flags: PTEFlags,
) -> (r: Result<u64, LoadError>)
    requires
        old(table).wf(),
        old(allocator).wf(),
    ensures
        final(table).wf(),
        final(allocator).wf(),
        final(allocator).is_initialized() == old(allocator).is_initialized(),
        (load_state(*final(table), *final(allocator)), r) == load_region(
            load_state(*old(table), *old(allocator)),
            data@.len(),
            guest_addr,
            len as nat,
            flags,
        ),
        r matches Err(e) && found_untouched(e) ==> *final(table) == *old(table) && *final(allocator)
            == *old(allocator),
{
    if data.len() > len {
        return Err(LoadError::DataBeyondRegion);
    }
    if len as u64 > 0 && guest_addr > u64::MAX - (len as u64 - 1) {
        return Err(LoadError::RegionOverflow);
    }
    proof {
        allocator.lemma_bounds();
    }
    let host_addr = match allocator.alloc_pages(len as u64) {
        Ok(addr) => addr,
        Err(_) => {
            return Err(LoadError::OutOfMemory);
        },
    };
    let pages: u64 = (len as u64) / 4096 + if len % 4096 == 0 {
        0
    } else {
        1
    };
    let ghost start = table@;
    let mut done: u64 = 0;
    while done < pages
        invariant
            table.wf(),
            done <= pages,
            pages == pages_for(len as nat),
            guest_addr + len <= 0x1_0000_0000_0000_0000,
            host_addr + 4096 * pages <= u64::MAX,
            map_pages(start, guest_addr, host_addr, flags, done as nat) == (
                table@,
                None::<MapError>,
            ),
        decreases pages - done,
    {
        let off = 4096 * done;
        let ghost before = table@;
        match table.map(guest_addr + off, host_addr + off, flags) {
            Ok(()) => {},
            Err(e) => {
                proof {
                    assert(map_pages(start, guest_addr, host_addr, flags, (done + 1) as nat) == (
                        before,
                        Some(e),
                    ));
                    lemma_map_pages_failed(
                        start,
                        guest_addr,
                        host_addr,
                        flags,
                        (done + 1) as nat,
                        pages as nat,
                    );
                }
                return Err(LoadError::Mapping(e));
            },
        }
        done = done + 1;
    }
    Ok(host_addr)
}

/// The guest page of the `index`th page of the region that starts at
/// `guest_addr`.
pub open spec fn region_page(guest_addr: u64, index: nat) -> u64 {
    guest_page((guest_addr + 4096 * index) as u64)
}

/// Whether `page` is one of the first `pages` guest pages of the region that
/// starts at `guest_addr`.
pub open spec fn in_region(page: u64, guest_addr: u64, pages: nat) -> bool {
    exists|index: nat| index < pages && #[trigger] region_page(guest_addr, index) == page
}

/// Two addresses that lie whole pages apart, less than 2^48 bytes, are in
/// different guest pages; an address is in the page of the page boundary
/// below it.
proof fn lemma_pages_apart(addr: u64, delta: u64)
    requires
        addr + delta <= u64::MAX,
    ensures
        0 < delta < 0x1_0000_0000_0000 && delta % 4096 == 0 ==> guest_page((addr + delta) as u64)
            != guest_page(addr),
        addr % 4096 == 0 && delta < 4096 ==> guest_page((addr + delta) as u64) == guest_page(addr),
{
    assert(addr + delta <= 0xffff_ffff_ffff_ffff && 0 < delta < 0x1_0000_0000_0000 && delta % 4096
        == 0 ==> ((addr + delta) as u64) & 0xffff_ffff_f000 != addr & 0xffff_ffff_f000)
        by (bit_vector);
    assert(addr + delta <= 0xffff_ffff_ffff_ffff && addr % 4096 == 0 && delta < 4096 ==> ((addr
        + delta) as u64) & 0xffff_ffff_f000 == addr & 0xffff_ffff_f000) by (bit_vector);
}

proof fn lemma_map_pages_fresh(
    model: PageTableModel,
    guest_addr: u64,
    host_addr: u64,
    flags: PTEFlags,
    pages: nat,
    total: nat,
)
    requires
        model.wf(),
        pages <= total,
        total >= 1 ==> guest_addr + 4096 * (total - 1) <= u64::MAX,
        total >= 1 ==> 4096 * (total - 1) < 0x1_0000_0000_0000,
        forall|index: nat|
            index < total ==> !model.mappings.contains_key(
                #[trigger] region_page(guest_addr, index),
            ),
        map_pages(model, guest_addr, host_addr, flags, total).1 != Some(MapError::OutOfTables),
    ensures
        map_pages(model, guest_addr, host_addr, flags, pages).1 is None,
        map_pages(model, guest_addr, host_addr, flags, pages).0.wf(),
        map_pages(model, guest_addr, host_addr, flags, pages).0.root == model.root,
        forall|index: nat|
            index < pages ==> map_pages(
                model,
                guest_addr,
                host_addr,
                flags,
                pages,
            ).0.mappings.contains_key(#[trigger] region_page(guest_addr, index)) && map_pages(
                model,
                guest_addr,
                host_addr,
                flags,
                pages,
            ).0.mappings[region_page(guest_addr, index)] == Entry::new(
                (host_addr + 4096 * index) as u64,
                leaf_flags(flags),
            ),
        forall|page: u64|
            !in_region(page, guest_addr, pages) ==> (#[trigger] map_pages(
                model,
                guest_addr,
                host_addr,
                flags,
                pages,
            ).0.mappings.contains_key(page)) == model.mappings.contains_key(page) && (
            model.mappings.contains_key(page) ==> map_pages(
                model,
                guest_addr,
                host_addr,
                flags,
                pages,
            ).0.mappings[page] == model.mappings[page]),
    decreases pages,
{
    if pages > 0 {
        let last = (pages - 1) as nat;
        lemma_map_pages_fresh(model, guest_addr, host_addr, flags, last, total);
        let before = map_pages(model, guest_addr, host_addr, flags, last).0;
        let target = (guest_addr + 4096 * last) as u64;
        let entry = Entry::new((host_addr + 4096 * last) as u64, leaf_flags(flags));
        assert(region_page(guest_addr, last) == guest_page(target));
        assert(!in_region(guest_page(target), guest_addr, last)) by {
            assert forall|index: nat| index < last implies region_page(guest_addr, index)
                != guest_page(target) by {
                lemma_pages_apart(
                    (guest_addr + 4096 * index) as u64,
                    (4096 * (last - index)) as u64,
                );
            }
        }
        assert(!before.mappings.contains_key(guest_page(target)));
        if before.map(target, entry) is Err {
            assert(map_pages(model, guest_addr, host_addr, flags, pages).1 == Some(
                MapError::OutOfTables,
            ));
            lemma_map_pages_failed(model, guest_addr, host_addr, flags, pages, total);
            assert(false);
        }
        let after = before.map(target, entry).unwrap();
        assert(map_pages(model, guest_addr, host_addr, flags, pages) == (
            after,
            None::<MapError>,
        ));
        flags.lemma_union(PTEFlags::v(), PTEFlags::v());
        flags.union(PTEFlags::v()).lemma_union(PTEFlags::u(), PTEFlags::v());
        Entry::lemma_new((host_addr + 4096 * last) as u64, leaf_flags(flags));
        crate::guest_page_table::lemma_map_wf(before, target, entry);
        assert forall|index: nat| index < pages implies after.mappings.contains_key(
            #[trigger] region_page(guest_addr, index),
        ) && after.mappings[region_page(guest_addr, index)] == Entry::new(
            (host_addr + 4096 * index) as u64,
            leaf_flags(flags),
        ) by {
            if index < last {
                lemma_pages_apart(
                    (guest_addr + 4096 * index) as u64,
                    (4096 * (last - index)) as u64,
                );
            }
        }
        assert forall|page: u64| !in_region(page, guest_addr, pages) implies (
        #[trigger] after.mappings.contains_key(page)) == model.mappings.contains_key(page) && (
        model.mappings.contains_key(page) ==> after.mappings[page] == model.mappings[page]) by {
            assert(region_page(guest_addr, last) != page);
            assert(!in_region(page, guest_addr, last)) by {
                if in_region(page, guest_addr, last) {
                    let index = choose|index: nat|
                        index < last && #[trigger] region_page(guest_addr, index) == page;
                    assert(index < pages && region_page(guest_addr, index) == page);
                }
            }
        }
    }
}

/// A tree with three tables to spare for each page of a region does not
/// run out of tables while the region is mapped: a page adds three at most.
pub proof fn lemma_tables_suffice(
    model: PageTableModel,
    guest_addr: u64,
    host_addr: u64,
    flags: PTEFlags,
    pages: nat,
)
    requires
        model.wf(),
        model.tables + 3 * pages <= model.capacity,
    ensures
        map_pages(model, guest_addr, host_addr, flags, pages).1 != Some(MapError::OutOfTables),
        map_pages(model, guest_addr, host_addr, flags, pages).0.wf(),
        map_pages(model, guest_addr, host_addr, flags, pages).0.capacity == model.capacity,
        map_pages(model, guest_addr, host_addr, flags, pages).0.tables <= model.tables + 3 * pages,
    decreases pages,
{
    if pages > 0 {
        let last = (pages - 1) as nat;
        lemma_tables_suffice(model, guest_addr, host_addr, flags, last);
        let before = map_pages(model, guest_addr, host_addr, flags, last).0;
        let entry = Entry::new((host_addr + 4096 * last) as u64, leaf_flags(flags));
        flags.lemma_union(PTEFlags::v(), PTEFlags::v());
        flags.union(PTEFlags::v()).lemma_union(PTEFlags::u(), PTEFlags::v());
        Entry::lemma_new((host_addr + 4096 * last) as u64, leaf_flags(flags));
        crate::guest_page_table::lemma_map_wf(before, (guest_addr + 4096 * last) as u64, entry);
        crate::guest_page_table::lemma_guest_page(
            (guest_addr + 4096 * last) as u64,
            (guest_addr + 4096 * last) as u64,
        );
        assert(before.depth.contains_key(guest_page((guest_addr + 4096 * last) as u64)));
        assert(before.missing((guest_addr + 4096 * last) as u64) <= 3);
        assert(before.tables + 3 <= before.capacity) by {
            assert(3 * last + 3 == 3 * pages);
        }
    }
}

/// The boundary of a region: data goes into a region exactly when it is no
/// longer than the region. It then takes one mapping for each page of the
/// region, `pages_for(len)` of them and no other: the pages are distinct,
/// each translates to the page at the same place in the host block, and what
/// lies outside the region translates as before. A region that starts at a
/// page boundary is covered from its first byte to its last.
///
/// This is stated of a region that can be mapped at all: one that lies
/// within the address space and is at most 2^48 bytes long, none of whose
/// pages is mapped, for which the allocator has the pages and the tree the
/// tables.
pub proof fn lemma_region_boundary(
    state: LoadState,
    data_len: nat,
    guest_addr: u64,
    len: nat,
    flags: PTEFlags,
)
    requires
        state.table.wf(),
        guest_addr + len <= 0x1_0000_0000_0000_0000,
        len <= 0x1_0000_0000_0000,
        pages_for(len) <= state.free,
        state.next + 4096 * state.free <= u64::MAX,
        forall|index: nat|
            index < pages_for(len) ==> !state.table.mappings.contains_key(
                #[trigger] region_page(guest_addr, index),
            ),
        map_pages(state.table, guest_addr, state.next, flags, pages_for(len)).1 != Some(
            MapError::OutOfTables,
        ),
    ensures
        load_region(state, data_len, guest_addr, len, flags).1 is Ok <==> data_len <= len,
        data_len > len ==> load_region(state, data_len, guest_addr, len, flags) == (
            state,
            Err::<u64, LoadError>(LoadError::DataBeyondRegion),
        ),
        data_len <= len ==> ({
            let after = load_region(state, data_len, guest_addr, len, flags).0;
            &&& load_region(state, data_len, guest_addr, len, flags).1 == Ok::<u64, LoadError>(
                state.next,
            )
            &&& after.free == state.free - pages_for(len)
            &&& after.next == state.next + 4096 * pages_for(len)
            &&& after.table.wf()
            &&& forall|index: nat|
                index < pages_for(len) ==> after.table.mappings.contains_key(
                    #[trigger] region_page(guest_addr, index),
                ) && after.table.mappings[region_page(guest_addr, index)] == Entry::new(
                    (state.next + 4096 * index) as u64,
                    leaf_flags(flags),
                )
            &&& forall|i: nat, j: nat|
                i < j < pages_for(len) ==> #[trigger] region_page(guest_addr, i)
                    != #[trigger] region_page(guest_addr, j)
            &&& forall|page: u64|
                !in_region(page, guest_addr, pages_for(len)) ==> (
                #[trigger] after.table.mappings.contains_key(page))
                    == state.table.mappings.contains_key(page) && (
                state.table.mappings.contains_key(page) ==> after.table.mappings[page]
                    == state.table.mappings[page])
            &&& guest_addr % 4096 == 0 ==> forall|addr: u64|
                guest_addr <= addr < guest_addr + len ==> (#[trigger] after.table.lookup(addr))
                    == Some(
                    Entry::new(
                        (state.next + 4096 * ((addr - guest_addr) / 4096)) as u64,
                        leaf_flags(flags),
                    ),
                )
        }),
{
    let pages = pages_for(len);
    if data_len <= len {
        lemma_map_pages_fresh(state.table, guest_addr, state.next, flags, pages, pages);
        let after = load_region(state, data_len, guest_addr, len, flags).0;
        assert forall|i: nat, j: nat| i < j < pages implies #[trigger] region_page(guest_addr, i)
            != #[trigger] region_page(guest_addr, j) by {
            lemma_pages_apart((guest_addr + 4096 * i) as u64, (4096 * (j - i)) as u64);
        }
        if guest_addr % 4096 == 0 {
            assert forall|addr: u64| guest_addr <= addr < guest_addr + len implies (
            #[trigger] after.table.lookup(addr)) == Some(
                Entry::new(
                    (state.next + 4096 * ((addr - guest_addr) / 4096)) as u64,
                    leaf_flags(flags),
                ),
            ) by {
                let index = ((addr - guest_addr) / 4096) as nat;
                let start = (guest_addr + 4096 * index) as u64;
                assert(index < pages);
                lemma_pages_apart(start, (addr - start) as u64);
                assert(guest_page(addr) == region_page(guest_addr, index));
            }
        }
    }
}

/// The device tree of the guest, in the order in which it is written: a
/// machine with its boot arguments, the memory reserved for the kernel, and
/// one RISC-V hart.
pub open spec fn guest_device_tree() -> Seq<FdtItem> {
    seq![
        FdtItem::BeginNode { name: ""@ },
        FdtItem::Property { name: "compatible"@, value: string_value("riscv-virtio"@) },
        FdtItem::Property { name: "#address-cells"@, value: be_u32(0x2) },
        FdtItem::Property { name: "#size-cells"@, value: be_u32(0x2) },
        FdtItem::BeginNode { name: "chosen"@ },
        FdtItem::Property {
            name: "bootargs"@,
            value: string_value("console=hvc earlycon=sbi panic=-1"@),
        },
        FdtItem::EndNode,
        FdtItem::BeginNode { name: "memory"@.push('@') + decimal(GUEST_BASE_ADDR as nat) },
        FdtItem::Property { name: "device_type"@, value: string_value("memory"@) },
        FdtItem::Property {
            name: "reg"@,
            value: be_u64_cells(seq![GUEST_BASE_ADDR, MEMORY_SIZE as u64]),
        },
        FdtItem::EndNode,
        FdtItem::BeginNode { name: "cpus"@ },
        FdtItem::Property { name: "#address-cells"@, value: be_u32(0x1) },
        FdtItem::Property { name: "#size-cells"@, value: be_u32(0x0) },
        FdtItem::Property { name: "timebase-frequency"@, value: be_u32(10000000) },
        FdtItem::BeginNode { name: "cpu@0"@ },
        FdtItem::Property { name: "device_type"@, value: string_value("cpu"@) },
        FdtItem::Property { name: "compatible"@, value: string_value("riscv"@) },
        FdtItem::Property { name: "reg"@, value: be_u32(0) },
        FdtItem::Property { name: "status"@, value: string_value("okay"@) },
        FdtItem::Property { name: "mmu-type"@, value: string_value("riscv,sv48"@) },
        FdtItem::Property { name: "riscv,isa"@, value: string_value("rv64imafdc"@) },
        FdtItem::EndNode,
        FdtItem::EndNode,
        FdtItem::EndNode,
    ]
}

/// What one more item does to the count of open nodes, to the closing of
/// the last node and to the bound on the bytes.
proof fn lemma_item_added(items: Seq<FdtItem>, item: FdtItem)
    ensures
        open_nodes(items.push(item)) == open_nodes(items) + match item {
            FdtItem::BeginNode { .. } => 1int,
            FdtItem::Property { .. } => 0int,
            FdtItem::EndNode => -1int,
        },
        node_ended(items.push(item)) == match item {
            FdtItem::BeginNode { .. } => false,
            FdtItem::Property { .. } => node_ended(items),
            FdtItem::EndNode => true,
        },
        fdt_size(items.push(item)) == fdt_size(items) + item_size(item),
{
    reveal_with_fuel(open_nodes, 2);
    reveal_with_fuel(node_ended, 2);
    reveal_with_fuel(fdt_size, 2);
    assert(items.push(item).drop_last() =~= items);
    assert(items.push(item).last() == item);
}

/// A writer that holds nothing has no node open, none ended, and the 60
/// bytes that every blob has.
proof fn lemma_nothing_written()
    ensures
        open_nodes(Seq::<FdtItem>::empty()) == 0,
        !node_ended(Seq::<FdtItem>::empty()),
        fdt_size(Seq::<FdtItem>::empty()) == 60,
{
    reveal_with_fuel(open_nodes, 1);
    reveal_with_fuel(node_ended, 1);
    reveal_with_fuel(fdt_size, 1);
}

/// A short string without a zero and of one byte to a character: its value
/// is one byte longer than the string.
proof fn lemma_string_value(value: Seq<char>)
    requires
        forall|i: int| 0 <= i < value.len() ==> '\u{1}' <= #[trigger] value[i] <= '\u{7f}',
    ensures
        !value.contains('\0'),
        string_value(value).len() == value.len() + 1,
{
    reveal(string_value);
    assert(is_ascii_chars(value));
    is_ascii_chars_encode_utf8(value);
}

/// Opens a node of a sound name, below the depth at which the writer
/// stops: the writer takes it.
fn begin_node(fdt: &mut vm_fdt::FdtWriter, name: &str) -> (r: Result<
    vm_fdt::FdtWriterNode,
    vm_fdt::Error,
>)
    requires
        node_name_accepted(name@),
        name@.len() <= 32,
        open_nodes(fdt_items(*old(fdt))) < 64,
    ensures
        r is Ok,
        fdt_items(*final(fdt)) == fdt_items(*old(fdt)).push(FdtItem::BeginNode { name: name@ }),
        r matches Ok(node) ==> fdt_node_depth(node) == open_nodes(fdt_items(*final(fdt))),
        open_nodes(fdt_items(*final(fdt))) == open_nodes(fdt_items(*old(fdt))) + 1,
        !node_ended(fdt_items(*final(fdt))),
        fdt_size(fdt_items(*final(fdt))) <= fdt_size(fdt_items(*old(fdt))) + 40,
{
    proof {
        lemma_item_added(fdt_items(*fdt), FdtItem::BeginNode { name: name@ });
    }
    fdt_begin_node(fdt, name)
}

/// Closes the innermost open node: the writer takes it.
fn end_node(fdt: &mut vm_fdt::FdtWriter, node: vm_fdt::FdtWriterNode) -> (r: Result<
    (),
    vm_fdt::Error,
>)
    requires
        fdt_node_depth(node) == open_nodes(fdt_items(*old(fdt))),
    ensures
        r is Ok,
        fdt_items(*final(fdt)) == fdt_items(*old(fdt)).push(FdtItem::EndNode),
        open_nodes(fdt_items(*final(fdt))) == open_nodes(fdt_items(*old(fdt))) - 1,
        node_ended(fdt_items(*final(fdt))),
        fdt_size(fdt_items(*final(fdt))) == fdt_size(fdt_items(*old(fdt))) + 4,
{
    proof {
        lemma_item_added(fdt_items(*fdt), FdtItem::EndNode);
    }
    fdt_end_node(fdt, node)
}

/// Whether a property of that name and value can be written after `items`
/// with room to spare: within an open node, and with less than a megabyte
/// held.
spec fn property_fits(items: Seq<FdtItem>, name: Seq<char>, value: Seq<u8>) -> bool {
    &&& !node_ended(items)
    &&& open_nodes(items) > 0
    &&& property_name_accepted(name)
    &&& value.len() <= 64
    &&& fdt_size(items) <= 0x10_0000
}

/// What a property leaves: the node still open, and at most 112 bytes more.
spec fn property_written(before: Seq<FdtItem>, after: Seq<FdtItem>, item: FdtItem) -> bool {
    &&& after == before.push(item)
    &&& open_nodes(after) == open_nodes(before)
    &&& !node_ended(after)
    &&& fdt_size(after) <= fdt_size(before) + 112
}

/// Writes a string property within an open node: the writer takes it.
fn property_string(fdt: &mut vm_fdt::FdtWriter, name: &str, value: &str) -> (r: Result<
    (),
    vm_fdt::Error,
>)
    requires
        property_fits(fdt_items(*old(fdt)), name@, string_value(value@)),
        !value@.contains('\0'),
    ensures
        r is Ok,
        property_written(
            fdt_items(*old(fdt)),
            fdt_items(*final(fdt)),
            FdtItem::Property { name: name@, value: string_value(value@) },
        ),
{
    proof {
        reveal(property_name_accepted);
        lemma_item_added(
            fdt_items(*fdt),
            FdtItem::Property { name: name@, value: string_value(value@) },
        );
    }
    fdt_property_string(fdt, name, value)
}

/// Writes a number as a property within an open node: the writer takes it.
fn property_u32(fdt: &mut vm_fdt::FdtWriter, name: &str, value: u32) -> (r: Result<
    (),
    vm_fdt::Error,
>)
    requires
        property_fits(fdt_items(*old(fdt)), name@, be_u32(value)),
    ensures
        r is Ok,
        property_written(
            fdt_items(*old(fdt)),
            fdt_items(*final(fdt)),
            FdtItem::Property { name: name@, value: be_u32(value) },
        ),
{
    proof {
        reveal(property_name_accepted);
        lemma_item_added(fdt_items(*fdt), FdtItem::Property { name: name@, value: be_u32(value) });
    }
    fdt_property_u32(fdt, name, value)
}

/// Writes cells as a property within an open node: the writer takes it.
fn property_array_u64(fdt: &mut vm_fdt::FdtWriter, name: &str, cells: &[u64]) -> (r: Result<
    (),
    vm_fdt::Error,
>)
    requires
        property_fits(fdt_items(*old(fdt)), name@, be_u64_cells(cells@)),
    ensures
        r is Ok,
        property_written(
            fdt_items(*old(fdt)),
            fdt_items(*final(fdt)),
            FdtItem::Property { name: name@, value: be_u64_cells(cells@) },
        ),
{
    proof {
        reveal(property_name_accepted);
        lemma_item_added(
            fdt_items(*fdt),
            FdtItem::Property { name: name@, value: be_u64_cells(cells@) },
        );
    }
    fdt_property_array_u64(fdt, name, cells)
}

/// The names of the guest's device tree are sound, and its strings are
/// short and hold no zero.
proof fn lemma_guest_names()
    ensures
        node_name_accepted(""@) && ""@.len() <= 32,
        node_name_accepted("chosen"@) && "chosen"@.len() <= 32,
        node_name_accepted("memory"@.push('@') + decimal(GUEST_BASE_ADDR as nat)),
        ("memory"@.push('@') + decimal(GUEST_BASE_ADDR as nat)).len() <= 32,
        node_name_accepted("cpus"@) && "cpus"@.len() <= 32,
        node_name_accepted("cpu@0"@) && "cpu@0"@.len() <= 32,
        property_name_accepted("compatible"@),
        property_name_accepted("#address-cells"@),
        property_name_accepted("#size-cells"@),
        property_name_accepted("bootargs"@),
        property_name_accepted("device_type"@),
        property_name_accepted("reg"@),
        property_name_accepted("timebase-frequency"@),
        property_name_accepted("status"@),
        property_name_accepted("mmu-type"@),
        property_name_accepted("riscv,isa"@),
{
    reveal(node_name_split);
    reveal(property_name_accepted);
    reveal_strlit("");
    reveal_strlit("chosen");
    assert(node_name_split("chosen"@, 6));
    reveal_strlit("memory");
    reveal_strlit("2149580800");
    assert(decimal(GUEST_BASE_ADDR as nat) =~= "2149580800"@) by {
        reveal_with_fuel(decimal, 11);
    }
    let memory = "memory"@.push('@') + decimal(GUEST_BASE_ADDR as nat);
    assert(node_name_split(memory, 6));
    reveal_strlit("cpus");
    assert(node_name_split("cpus"@, 4));
    reveal_strlit("cpu@0");
    assert(node_name_split("cpu@0"@, 3));
    reveal_strlit("compatible");
    reveal_strlit("#address-cells");
    reveal_strlit("#size-cells");
    reveal_strlit("bootargs");
    reveal_strlit("device_type");
    reveal_strlit("reg");
    reveal_strlit("timebase-frequency");
    reveal_strlit("status");
    reveal_strlit("mmu-type");
    reveal_strlit("riscv,isa");
}

/// The values of the guest's device tree are short, and its strings hold
/// no zero.
proof fn lemma_guest_values()
    ensures
        string_value("riscv-virtio"@).len() <= 64 && !"riscv-virtio"@.contains('\0'),
        string_value("console=hvc earlycon=sbi panic=-1"@).len() <= 64
            && !"console=hvc earlycon=sbi panic=-1"@.contains('\0'),
        string_value("memory"@).len() <= 64 && !"memory"@.contains('\0'),
        string_value("cpu"@).len() <= 64 && !"cpu"@.contains('\0'),
        string_value("riscv"@).len() <= 64 && !"riscv"@.contains('\0'),
        string_value("okay"@).len() <= 64 && !"okay"@.contains('\0'),
        string_value("riscv,sv48"@).len() <= 64 && !"riscv,sv48"@.contains('\0'),
        string_value("rv64imafdc"@).len() <= 64 && !"rv64imafdc"@.contains('\0'),
        forall|value: u32| #[trigger] be_u32(value).len() == 4,
        be_u64_cells(seq![GUEST_BASE_ADDR, MEMORY_SIZE as u64]).len() == 16,
{
    reveal_strlit("riscv-virtio");
    lemma_string_value("riscv-virtio"@);
    reveal_strlit("console=hvc earlycon=sbi panic=-1");
    lemma_string_value("console=hvc earlycon=sbi panic=-1"@);
    reveal_strlit("memory");
    lemma_string_value("memory"@);
    reveal_strlit("cpu");
    lemma_string_value("cpu"@);
    reveal_strlit("riscv");
    lemma_string_value("riscv"@);
    reveal_strlit("okay");
    lemma_string_value("okay"@);
    reveal_strlit("riscv,sv48");
    lemma_string_value("riscv,sv48"@);
    reveal_strlit("rv64imafdc");
    lemma_string_value("rv64imafdc"@);
    let cells = seq![GUEST_BASE_ADDR, MEMORY_SIZE as u64];
    assert(cells.drop_last() =~= seq![GUEST_BASE_ADDR]);
    assert(cells.drop_last().drop_last() =~= Seq::<u64>::empty());
    reveal_with_fuel(be_u64_cells, 3);
}

/// Builds the device tree blob of the guest: the blob of
/// `guest_device_tree`, which is within `DTB_MAX_SIZE`. The writer refuses
/// none of its nodes and properties, so the build does not fail.
pub fn build_device_tree() -> (r: Result<Vec<u8>, vm_fdt::Error>)
    ensures
        r matches Ok(blob) && blob@ == fdt_blob(guest_device_tree()) && blob@.len()
            <= DTB_MAX_SIZE,
{
    proof {
        lemma_guest_names();
        lemma_guest_values();
        lemma_nothing_written();
    }
    let mut fdt = fdt_new()?;
    let root_node = begin_node(&mut fdt, "")?;
    property_string(&mut fdt, "compatible", "riscv-virtio")?;
    property_u32(&mut fdt, "#address-cells", 0x2)?;
    property_u32(&mut fdt, "#size-cells", 0x2)?;

    let chosen_node = begin_node(&mut fdt, "chosen")?;
    property_string(&mut fdt, "bootargs", "console=hvc earlycon=sbi panic=-1")?;
    end_node(&mut fdt, chosen_node)?;

    let memory_name = unit_name("memory", GUEST_BASE_ADDR);
    let memory_node = begin_node(&mut fdt, memory_name.as_str())?;
    property_string(&mut fdt, "device_type", "memory")?;
    let reg = [GUEST_BASE_ADDR, MEMORY_SIZE as u64];
    assert(reg@ =~= seq![GUEST_BASE_ADDR, MEMORY_SIZE as u64]);
    property_array_u64(&mut fdt, "reg", &reg)?;
    end_node(&mut fdt, memory_node)?;

    let cpus_node = begin_node(&mut fdt, "cpus")?;
    property_u32(&mut fdt, "#address-cells", 0x1)?;
    property_u32(&mut fdt, "#size-cells", 0x0)?;
    property_u32(&mut fdt, "timebase-frequency", 10000000)?;

    let cpu_node = begin_node(&mut fdt, "cpu@0")?;
    property_string(&mut fdt, "device_type", "cpu")?;
    property_string(&mut fdt, "compatible", "riscv")?;
    property_u32(&mut fdt, "reg", 0)?;
    property_string(&mut fdt, "status", "okay")?;
    property_string(&mut fdt, "mmu-type", "riscv,sv48")?;
    property_string(&mut fdt, "riscv,isa", "rv64imafdc")?;

    end_node(&mut fdt, cpu_node)?;
    end_node(&mut fdt, cpus_node)?;
    end_node(&mut fdt, root_node)?;
    assert(fdt_items(fdt) =~= guest_device_tree());
    fdt_finish(fdt)
}

/// What `load_image` does to the tree and the allocator, and what it
/// returns: the header of the image and the host address of the kernel's
/// memory, or the first thing that went wrong. An image without a sound
/// header, or one that is longer than the kernel's memory, changes nothing.
pub open spec fn image_loaded(state: LoadState, image: Seq<u8>) -> (
    LoadState,
    Result<(RiscvImageHeader, u64), LoadError>,
) {
    match RiscvImageHeader::parsed(image) {
        Err(e) => (state, Err(e)),
        Ok(header) => if image.len() > MEMORY_SIZE {
            (state, Err(LoadError::ImageTooLarge))
        } else {
            let (after, r) = load_region(
                state,
                image.len(),
                GUEST_BASE_ADDR,
                MEMORY_SIZE as nat,
                PTEFlags::rwx(),
            );
            (
                after,
                match r {
                    Ok(host_addr) => Ok((header, host_addr)),
                    Err(e) => Err(e),
                },
            )
        },
    }
}

/// What `place_device_tree` does to the tree and the allocator for a blob
/// of `dtb_len` bytes, and what it returns: the host address of the blob's
/// region, or the first thing that went wrong. A blob that is too long
/// changes nothing.
pub open spec fn device_tree_placed(state: LoadState, dtb_len: nat) -> (
    LoadState,
    Result<u64, LoadError>,
) {
    if dtb_len > DTB_MAX_SIZE {
        (state, Err(LoadError::DeviceTreeTooLarge))
    } else {
        load_region(state, dtb_len, GUEST_DTB_ADDR, dtb_len, PTEFlags::r())
    }
}

/// Checks a kernel image and gives it the kernel's memory: `MEMORY_SIZE`
/// bytes of host memory, mapped from `GUEST_BASE_ADDR` upward to read, write
/// and execute. The image belongs at the start of that memory.
pub fn load_image(table: &mut GuestPageTable, allocator: &mut PageAllocator, image: &[u8]) -> (r:
    Result<(RiscvImageHeader, u64), LoadError>)
    requires
        old(table).wf(),
        old(allocator).wf(),
    ensures
        final(table).wf(),
        final(allocator).wf(),
        final(allocator).is_initialized() == old(allocator).is_initialized(),
        (load_state(*final(table), *final(allocator)), r) == image_loaded(
            load_state(*old(table), *old(allocator)),
            image@,
        ),
        r matches Err(e) && found_untouched(e) ==> *final(table) == *old(table) && *final(allocator)
            == *old(allocator),
{
    let header = match RiscvImageHeader::parse(image) {
        Ok(header) => header,
        Err(e) => {
            return Err(e);
        },
    };
    if image.len() > MEMORY_SIZE {
        return Err(LoadError::ImageTooLarge);
    }
    match copy_and_map(table, allocator, image, GUEST_BASE_ADDR, MEMORY_SIZE, PTEFlags::rwx()) {
        Ok(host_addr) => Ok((header, host_addr)),
        Err(e) => Err(e),
    }
}

/// Gives a device tree blob its place: a region of its own length, mapped
/// read-only at `GUEST_DTB_ADDR`. A blob of more than `DTB_MAX_SIZE` bytes
/// is refused.
pub fn place_device_tree(
    table: &mut GuestPageTable,
    allocator: &mut PageAllocator,
    dtb: &[u8],
) -> (r: Result<u64, LoadError>)
    requires
        old(table).wf(),
        old(allocator).wf(),
    ensures
        final(table).wf(),
        final(allocator).wf(),
        final(allocator).is_initialized() == old(allocator).is_initialized(),
        (load_state(*final(table), *final(allocator)), r) == device_tree_placed(
            load_state(*old(table), *old(allocator)),
            dtb@.len(),
        ),
        r matches Err(e) && found_untouched(e) ==> *final(table) == *old(table) && *final(allocator)
            == *old(allocator),
{
    if dtb.len() > DTB_MAX_SIZE {
        return Err(LoadError::DeviceTreeTooLarge);
    }
    copy_and_map(table, allocator, dtb, GUEST_DTB_ADDR, dtb.len(), PTEFlags::r())
}

/// What a load leaves for the one who copies the bytes and starts the guest.
pub struct LoadedKernel {
    /// The header of the image.
    pub header: RiscvImageHeader,
    /// The host address of the kernel's memory, where the image belongs.
    pub kernel_host_addr: u64,
    /// The host address of the region of the device tree blob.
    pub dtb_host_addr: u64,
    /// The device tree blob.
    pub dtb: Vec<u8>,
}

/// Loads a kernel for the guest: checks the image and maps the kernel's
/// memory, then builds the device tree and maps its blob.
///
/// The steps are those of `load_image`, `build_device_tree` and
/// `place_device_tree`, in that order, and the first that fails ends the
/// load with what was done until then. The device tree is always built and
/// always fits. An image that is refused leaves the tree and the allocator
/// untouched.
pub fn load_linux_kernel(
    table: &mut GuestPageTable,
    allocator: &mut PageAllocator,
    image: &[u8],
) -> (r: Result<LoadedKernel, LoadError>)
    requires
        old(table).wf(),
        old(allocator).wf(),
    ensures
        final(table).wf(),
        final(allocator).wf(),
        final(allocator).is_initialized() == old(allocator).is_initialized(),
        ({
            let start = load_state(*old(table), *old(allocator));
            let end = load_state(*final(table), *final(allocator));
            let (loaded, first) = image_loaded(start, image@);
            match first {
                Err(e) => {
                    &&& end == loaded
                    &&& r matches Err(x) && x == e
                    &&& found_untouched(e) ==> *final(table) == *old(table) && *final(allocator)
                        == *old(allocator)
                },
                Ok((header, kernel_host_addr)) => {
                    let blob = fdt_blob(guest_device_tree());
                    let (placed, second) = device_tree_placed(loaded, blob.len());
                    &&& blob.len() <= DTB_MAX_SIZE
                    &&& end == placed
                    &&& match second {
                        Err(e) => r matches Err(x) && x == e,
                        Ok(dtb_host_addr) => r matches Ok(kernel) && kernel.header == header
                            && kernel.kernel_host_addr == kernel_host_addr
                            && kernel.dtb_host_addr == dtb_host_addr && kernel.dtb@ == blob,
                    }
                },
            }
        }),
{
    let (header, kernel_host_addr) = match load_image(table, allocator, image) {
        Ok(loaded) => loaded,
        Err(e) => {
            return Err(e);
        },
    };
    let dtb = match build_device_tree() {
        Ok(dtb) => dtb,
        Err(_) => {
            return Err(LoadError::DeviceTree);
        },
    };
    match place_device_tree(table, allocator, dtb.as_slice()) {
        Ok(dtb_host_addr) => Ok(LoadedKernel { header, kernel_host_addr, dtb_host_addr, dtb }),
        Err(e) => Err(e),
    }
}

} // verus!
