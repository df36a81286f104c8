use hypervisor::allocator::PageAllocator;
use hypervisor::flags::PTEFlags;
use hypervisor::guest_page_table::GuestPageTable;
use hypervisor::trap::{classify, route, trap_vector, Access, TrapAction, TrapCause, TrapContext};
use hypervisor::vcpu::{VCpu, VCpuError, VCpuState, WorldSwitch, HSTATUS_ENTER_GUEST};

fn table() -> GuestPageTable {
    let mut a = PageAllocator::new();
    a.init(0x9000_0000, 0x9100_0000).unwrap();
    let mut pt = GuestPageTable::new(&mut a, 8).unwrap();
    pt.map(0x10_0000, 0x9001_0000, PTEFlags::rwx()).unwrap();
    pt
}

fn context(cause: u64) -> TrapContext {
    let mut registers = [0u64; 31];
    registers[9] = 0x1234;
    TrapContext { cause, fault_addr: 0xdead_0000, guest_pc: 0x10_0040, registers }
}

#[test]
fn causes_are_sorted() {
    assert_eq!(classify(20), TrapCause::GuestPageFault(Access::Fetch));
    assert_eq!(classify(21), TrapCause::GuestPageFault(Access::Load));
    assert_eq!(classify(23), TrapCause::GuestPageFault(Access::Store));
    assert_eq!(classify(10), TrapCause::GuestCall);
    assert_eq!(classify(2), TrapCause::Exception);
    assert_eq!(classify(22), TrapCause::Exception);
    assert_eq!(classify(0), TrapCause::Exception);
    assert_eq!(classify(0x7fff_ffff_ffff_ffff), TrapCause::Exception);
    assert_eq!(classify(0x8000_0000_0000_0000), TrapCause::Interrupt);
    assert_eq!(classify(0x8000_0000_0000_0005), TrapCause::Interrupt);
    // The top bit decides before the code does.
    assert_eq!(classify(0x8000_0000_0000_0014), TrapCause::Interrupt);
}

#[test]
fn every_cause_halts() {
    for cause in [
        TrapCause::GuestPageFault(Access::Fetch),
        TrapCause::GuestPageFault(Access::Load),
        TrapCause::GuestPageFault(Access::Store),
        TrapCause::GuestCall,
        TrapCause::Interrupt,
        TrapCause::Exception,
    ] {
        assert_eq!(route(cause), TrapAction::Halt);
    }
}

#[test]
fn trap_vector_is_direct() {
    assert_eq!(trap_vector(0x8020_0123), 0x8020_0120);
    assert_eq!(trap_vector(0x8020_0120), 0x8020_0120);
    assert_eq!(trap_vector(3), 0);
}

#[test]
fn hart_is_bound_to_tree_and_entry() {
    let pt = table();
    let vcpu = VCpu::new(&pt, 0x10_0000);
    assert_eq!(vcpu.hgatp, pt.hgatp());
    assert_eq!(vcpu.hgatp, (9 << 60) | 0x90000);
    assert_eq!(vcpu.sepc, 0x10_0000);
    assert_eq!(vcpu.state, VCpuState::Created);
    assert!(vcpu.context.is_none());
}

#[test]
fn run_enters_the_guest_once() {
    let pt = table();
    let mut vcpu = VCpu::new(&pt, 0x10_0000);
    let switch = vcpu.run().unwrap();
    assert_eq!(
        switch,
        WorldSwitch { hgatp: pt.hgatp(), hstatus: (2 << 32) | (1 << 7), sepc: 0x10_0000 }
    );
    assert_eq!(HSTATUS_ENTER_GUEST, 0x2_0000_0080);
    assert_eq!(vcpu.state, VCpuState::Running);
    assert_eq!(vcpu.run(), Err(VCpuError::WrongState));
    assert_eq!(vcpu.state, VCpuState::Running);
}

#[test]
fn trap_halts_the_hart() {
    let pt = table();
    let mut vcpu = VCpu::new(&pt, 0x10_0000);
    // A hart that does not run takes no trap.
    assert_eq!(vcpu.trap(context(21)), Err(VCpuError::WrongState));
    assert!(vcpu.finish_trap().is_err());
    assert_eq!(vcpu.state, VCpuState::Created);
    vcpu.run().unwrap();
    assert!(vcpu.finish_trap().is_err());
    assert_eq!(vcpu.trap(context(21)), Ok(TrapCause::GuestPageFault(Access::Load)));
    assert_eq!(vcpu.state, VCpuState::Trapped);
    assert_eq!(vcpu.context, Some(context(21)));
    assert_eq!(vcpu.sepc, 0x10_0040);
    assert_eq!(vcpu.trap(context(10)), Err(VCpuError::WrongState));
    assert_eq!(vcpu.finish_trap(), Ok((TrapAction::Halt, None)));
    assert_eq!(vcpu.state, VCpuState::Halted);
    assert!(vcpu.context.is_none());
    assert_eq!(vcpu.hgatp, pt.hgatp());
    // Halted is for good.
    assert_eq!(vcpu.run(), Err(VCpuError::WrongState));
    assert_eq!(vcpu.trap(context(10)), Err(VCpuError::WrongState));
    assert!(vcpu.finish_trap().is_err());
    assert_eq!(vcpu.state, VCpuState::Halted);
}
