//! The device tree writer of `vm_fdt`, as far as the loader uses it. What
//! is said of the writer here is taken on trust; the loader is verified
//! against it.
//!
//! A writer is described by what it holds: the nodes and properties written
//! to it, each property with its name and the bytes of its value. From that
//! follow the number of open nodes, whether the last node was closed, and a
//! bound on the bytes held, which are what the writer tests before it
//! accepts a call.

use vstd::prelude::*;
use vstd::utf8::encode_utf8;

verus! {

/// `vm_fdt::FdtWriter`, the writer of a device tree blob. Nothing is known
/// of what is inside one but what `fdt_items` names.
#[verifier::external_type_specification]
#[verifier::external_body]
pub struct ExFdtWriter(vm_fdt::FdtWriter);

/// `vm_fdt::FdtWriterNode`, the handle of an open node, which `begin_node`
/// gives and `end_node` takes back. Nothing is known of what is inside one
/// but what `fdt_node_depth` names.
#[verifier::external_type_specification]
#[verifier::external_body]
pub struct ExFdtWriterNode(vm_fdt::FdtWriterNode);

/// `vm_fdt::Error`, the reason for which the writer refuses a call. Nothing
/// is known of which reason one holds.
#[verifier::external_type_specification]
#[verifier::external_body]
pub struct ExFdtError(vm_fdt::Error);

/// One thing that a writer holds: the start of a node, a property with the
/// bytes of its value, or the end of a node.
pub enum FdtItem {
    BeginNode { name: Seq<char> },
    Property { name: Seq<char>, value: Seq<u8> },
    EndNode,
}

/// What a writer holds: the nodes and properties written to it since
/// `FdtWriter::new` made it, in their order.
pub uninterp spec fn fdt_items(writer: vm_fdt::FdtWriter) -> Seq<FdtItem>;

/// The depth that a handle holds: the number of nodes that were open when
/// its own node had been opened, that node among them.
pub uninterp spec fn fdt_node_depth(node: vm_fdt::FdtWriterNode) -> int;

/// The blob that `FdtWriter::finish` gives for a writer that `FdtWriter::new`
/// made and that holds exactly `items`.
pub uninterp spec fn fdt_blob(items: Seq<FdtItem>) -> Seq<u8>;

/// The number of nodes that are open after `items`.
#[verifier::opaque]
pub open spec fn open_nodes(items: Seq<FdtItem>) -> int
    decreases items.len(),
{
    if items.len() == 0 {
        0
    } else {
        match items.last() {
            FdtItem::BeginNode { .. } => open_nodes(items.drop_last()) + 1,
            FdtItem::Property { .. } => open_nodes(items.drop_last()),
            FdtItem::EndNode => open_nodes(items.drop_last()) - 1,
        }
    }
}

/// Whether the last node that `items` began or ended was ended: a property
/// may not follow then.
#[verifier::opaque]
pub open spec fn node_ended(items: Seq<FdtItem>) -> bool
    decreases items.len(),
{
    if items.len() == 0 {
        false
    } else {
        match items.last() {
            FdtItem::BeginNode { .. } => false,
            FdtItem::Property { .. } => node_ended(items.drop_last()),
            FdtItem::EndNode => true,
        }
    }
}

/// `len` rounded up to a multiple of four.
pub open spec fn padded(len: nat) -> nat {
    ((len + 3) / 4 * 4) as nat
}

/// The most bytes that one item adds to what a writer holds. A node is a
/// token, its name and a zero, padded; a property is three words, its value,
/// padded, and at most its name and a zero among the strings; an end is a
/// token.
pub open spec fn item_size(item: FdtItem) -> nat {
    match item {
        FdtItem::BeginNode { name } => 4 + padded(name.len() + 1),
        FdtItem::Property { name, value } => 12 + padded(value.len()) + name.len() + 1,
        FdtItem::EndNode => 4,
    }
}

/// A bound on the bytes of the blob of `items`: the header, the empty map of
/// reserved memory and the final token, which are 60 bytes, and the items.
#[verifier::opaque]
pub open spec fn fdt_size(items: Seq<FdtItem>) -> nat
    decreases items.len(),
{
    if items.len() == 0 {
        60
    } else {
        fdt_size(items.drop_last()) + item_size(items.last())
    }
}

/// A character that may stand in the name of a node.
pub open spec fn node_name_char(c: char) -> bool {
    ('0' <= c <= '9') || ('a' <= c <= 'z') || ('A' <= c <= 'Z') || c == ',' || c == '.' || c
        == '_' || c == '+' || c == '-'
}

/// A character that may stand in the name of a property.
pub open spec fn property_name_char(c: char) -> bool {
    node_name_char(c) || c == '?' || c == '#'
}

/// Whether the writer accepts the name for a node: the empty name, or a
/// name of 1 to 31 characters that begins with a letter, with a unit
/// address behind an `@` or without one.
pub open spec fn node_name_accepted(name: Seq<char>) -> bool {
    name.len() == 0 || exists|at: int| #[trigger]
        node_name_split(name, at)
}

/// Whether the name of a node is sound with its first `at` characters as
/// the name proper: what follows is nothing, or an `@` and the unit address.
#[verifier::opaque]
pub open spec fn node_name_split(name: Seq<char>, at: int) -> bool {
    &&& 1 <= at <= name.len()
    &&& at <= 31
    &&& ('a' <= name[0] <= 'z') || ('A' <= name[0] <= 'Z')
    &&& forall|i: int| 0 <= i < at ==> node_name_char(#[trigger] name[i])
    &&& at < name.len() ==> name[at] == '@'
    &&& forall|i: int| at < i < name.len() ==> node_name_char(#[trigger] name[i])
}

/// Whether the writer accepts the name for a property: 1 to 31 characters
/// of those that may stand in one.
#[verifier::opaque]
pub open spec fn property_name_accepted(name: Seq<char>) -> bool {
    &&& 1 <= name.len() <= 31
    &&& forall|i: int| 0 <= i < name.len() ==> property_name_char(#[trigger] name[i])
}

/// On these the writer accepts a property: a node is open and none was
/// ended since, the name is sound, and neither the value nor what the
/// writer holds has outgrown 32 bits.
pub open spec fn property_accepted(items: Seq<FdtItem>, name: Seq<char>, value: Seq<u8>) -> bool {
    &&& !node_ended(items)
    &&& open_nodes(items) > 0
    &&& property_name_accepted(name)
    &&& value.len() <= u32::MAX
    &&& fdt_size(items) <= u32::MAX
}

/// The value of a string property: the bytes of the string and a zero.
#[verifier::opaque]
pub open spec fn string_value(value: Seq<char>) -> Seq<u8> {
    encode_utf8(value).push(0u8)
}

/// The four bytes of a number, the highest first.
pub open spec fn be_u32(value: u32) -> Seq<u8> {
    seq![
        ((value >> 24) & 0xff) as u8,
        ((value >> 16) & 0xff) as u8,
        ((value >> 8) & 0xff) as u8,
        (value & 0xff) as u8,
    ]
}

/// The eight bytes of a number, the highest first.
pub open spec fn be_u64(value: u64) -> Seq<u8> {
    be_u32((value >> 32) as u32) + be_u32((value & 0xffff_ffff) as u32)
}

/// The bytes of the cells, one after another, each the highest byte first.
#[verifier::opaque]
pub open spec fn be_u64_cells(cells: Seq<u64>) -> Seq<u8>
    decreases cells.len(),
{
    if cells.len() == 0 {
        Seq::<u8>::empty()
    } else {
        be_u64_cells(cells.drop_last()) + be_u64(cells.last())
    }
}

/// The character of one decimal digit.
pub open spec fn decimal_digit(d: nat) -> char {
    ((48 + d % 10) as u8) as char
}

/// `n` in decimal, without leading zeros.
pub open spec fn decimal(n: nat) -> Seq<char>
    decreases n,
{
    if n < 10 {
        seq![decimal_digit(n)]
    } else {
        decimal(n / 10).push(decimal_digit(n % 10))
    }
}

/// `FdtWriter::new`: it succeeds, and the writer holds nothing.
#[verifier::external_body]
pub(crate) fn fdt_new() -> (r: Result<vm_fdt::FdtWriter, vm_fdt::Error>)
    ensures
        r is Ok,
        r matches Ok(w) ==> fdt_items(w) == Seq::<FdtItem>::empty(),
{
    vm_fdt::FdtWriter::new()
}

/// `FdtWriter::begin_node`: it succeeds exactly where fewer than 64 nodes
/// are open and the name is sound. The writer then holds the start of the
/// node after what it held, and the handle holds the new depth.
#[verifier::external_body]
pub(crate) fn fdt_begin_node(writer: &mut vm_fdt::FdtWriter, name: &str) -> (r: Result<
    vm_fdt::FdtWriterNode,
    vm_fdt::Error,
>)
    ensures
        (r is Ok) == (open_nodes(fdt_items(*old(writer))) < 64 && node_name_accepted(name@)),
        r is Ok ==> fdt_items(*final(writer)) == fdt_items(*old(writer)).push(
            FdtItem::BeginNode { name: name@ },
        ),
        r matches Ok(node) ==> fdt_node_depth(node) == open_nodes(fdt_items(*old(writer))) + 1,
{
    writer.begin_node(name)
}

/// `FdtWriter::end_node`: it succeeds exactly where the handle is that of
/// the innermost open node. The writer then holds the end of a node after
/// what it held.
#[verifier::external_body]
pub(crate) fn fdt_end_node(writer: &mut vm_fdt::FdtWriter, node: vm_fdt::FdtWriterNode) -> (r:
    Result<(), vm_fdt::Error>)
    ensures
        (r is Ok) == (fdt_node_depth(node) == open_nodes(fdt_items(*old(writer)))),
        r is Ok ==> fdt_items(*final(writer)) == fdt_items(*old(writer)).push(FdtItem::EndNode),
{
    writer.end_node(node)
}

/// `FdtWriter::property_string`: it succeeds where the property is accepted
/// and the string holds no zero. The writer then holds the property, its
/// value the bytes of the string and a zero, after what it held.
#[verifier::external_body]
pub(crate) fn fdt_property_string(writer: &mut vm_fdt::FdtWriter, name: &str, value: &str) -> (r:
    Result<(), vm_fdt::Error>)
    ensures
        property_accepted(fdt_items(*old(writer)), name@, string_value(value@))
            && !value@.contains('\0') ==> r is Ok,
        r is Ok ==> fdt_items(*final(writer)) == fdt_items(*old(writer)).push(
            FdtItem::Property { name: name@, value: string_value(value@) },
        ),
{
    writer.property_string(name, value)
}

/// `FdtWriter::property_u32`: it succeeds where the property is accepted.
/// The writer then holds the property, its value the four bytes of the
/// number, after what it held.
#[verifier::external_body]
pub(crate) fn fdt_property_u32(writer: &mut vm_fdt::FdtWriter, name: &str, value: u32) -> (r:
    Result<(), vm_fdt::Error>)
    ensures
        property_accepted(fdt_items(*old(writer)), name@, be_u32(value)) ==> r is Ok,
        r is Ok ==> fdt_items(*final(writer)) == fdt_items(*old(writer)).push(
            FdtItem::Property { name: name@, value: be_u32(value) },
        ),
{
    writer.property_u32(name, value)
}

/// `FdtWriter::property_array_u64`: it succeeds where the property is
/// accepted. The writer then holds the property, its value the bytes of the
/// cells, after what it held.
#[verifier::external_body]
pub(crate) fn fdt_property_array_u64(
    writer: &mut vm_fdt::FdtWriter,
    name: &str,
    cells: &[u64],
) -> (r: Result<(), vm_fdt::Error>)
    ensures
        property_accepted(fdt_items(*old(writer)), name@, be_u64_cells(cells@)) ==> r is Ok,
        r is Ok ==> fdt_items(*final(writer)) == fdt_items(*old(writer)).push(
            FdtItem::Property { name: name@, value: be_u64_cells(cells@) },
        ),
{
    writer.property_array_u64(name, cells)
}

/// `FdtWriter::finish`: it succeeds where no node is open and what the
/// writer holds has not outgrown 32 bits. The blob is then that of what the
/// writer held, and no longer than the bound. This is said of a writer that
/// came from `fdt_new`, as every writer of this library does.
#[verifier::external_body]
pub(crate) fn fdt_finish(writer: vm_fdt::FdtWriter) -> (r: Result<Vec<u8>, vm_fdt::Error>)
    ensures
        open_nodes(fdt_items(writer)) == 0 && fdt_size(fdt_items(writer)) <= u32::MAX ==> r is Ok,
        r matches Ok(blob) ==> blob@ == fdt_blob(fdt_items(writer)) && blob@.len() <= fdt_size(
            fdt_items(writer),
        ),
{
    writer.finish()
}

/// `format!` with `{}` on a string and on a `u64`: the string as it is and
/// the number in decimal, with an `@` between them.
#[verifier::external_body]
pub(crate) fn unit_name(name: &str, address: u64) -> (full: String)
    ensures
        full@ == name@.push('@') + decimal(address as nat),
{
    format!("{}@{}", name, address)
}

} // verus!
