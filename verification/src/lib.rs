//! The heart of a small hypervisor for RISC-V: the tree of tables that
//! translates the addresses of a guest, the loader that places a kernel and
//! its device tree in guest memory, and the state of the virtual hart that
//! runs it. The library decides and keeps the books; what touches the
//! machine is left to its caller.

pub mod flags;
pub mod entry;
pub mod table;
pub mod allocator;
pub mod fdt;
pub mod guest_page_table;
pub mod linux_loader;
pub mod trap;
pub mod vcpu;
