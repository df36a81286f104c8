//! The trap router: the causes of a trap and what is done about each.

use vstd::prelude::*;

verus! {

/// Bit of the cause register that tells an interrupt from an exception.
pub const CAUSE_INTERRUPT: u64 = 0x8000_0000_0000_0000;

/// Cause code of a supervisor call made by the guest.
pub const CAUSE_GUEST_CALL: u64 = 10;

/// Cause code of a guest-page fault on an instruction fetch.
pub const CAUSE_FETCH_GUEST_PAGE_FAULT: u64 = 20;

/// Cause code of a guest-page fault on a load.
pub const CAUSE_LOAD_GUEST_PAGE_FAULT: u64 = 21;

/// Cause code of a guest-page fault on a store.
pub const CAUSE_STORE_GUEST_PAGE_FAULT: u64 = 23;

/// The kind of access that met no mapping.
#[derive(Clone, Copy, Debug, PartialEq, Eq, Structural)]
pub enum Access {
    Fetch,
    Load,
    Store,
}

/// What a trap was taken for.
#[derive(Clone, Copy, Debug, PartialEq, Eq, Structural)]
pub enum TrapCause {
    /// The guest touched an address that its tree does not map.
    GuestPageFault(Access),
    /// The guest called its supervisor.
    GuestCall,
    /// An interrupt, raised while the hypervisor or the guest ran.
    Interrupt,
    /// An illegal instruction or any other exception: a fault of the
    /// hypervisor itself.
    Exception,
}

/// What the router decides after a trap.
#[derive(Clone, Copy, Debug, PartialEq, Eq, Structural)]
pub enum TrapAction {
    /// Give the saved registers back and enter the guest again.
    Resume,
    /// Report the cause and stop the virtual hart for good.
    Halt,
}

/// What is captured when a trap is taken: the cause, the address that
/// faulted where there is one, the program counter of the guest, and the
/// guest's general-purpose registers, all 31 but the one that is always
/// zero.
#[derive(Clone, Copy, Debug, PartialEq, Eq)]
pub struct TrapContext {
    pub cause: u64,
    pub fault_addr: u64,
    pub guest_pc: u64,
    pub registers: [u64; 31],
}

/// The class of a cause code.
pub open spec fn cause_of(code: u64) -> TrapCause {
    if code >= CAUSE_INTERRUPT {
        TrapCause::Interrupt
    } else if code == CAUSE_FETCH_GUEST_PAGE_FAULT {
        TrapCause::GuestPageFault(Access::Fetch)
    } else if code == CAUSE_LOAD_GUEST_PAGE_FAULT {
        TrapCause::GuestPageFault(Access::Load)
    } else if code == CAUSE_STORE_GUEST_PAGE_FAULT {
        TrapCause::GuestPageFault(Access::Store)
    } else if code == CAUSE_GUEST_CALL {
        TrapCause::GuestCall
    } else {
        TrapCause::Exception
    }
}

/// What is done about a cause. Nothing is recovered from: no fault is
/// served and no call answered, so every cause halts.
pub open spec fn action_for(cause: TrapCause) -> TrapAction {
    TrapAction::Halt
}

/// Sorts a cause code: an interrupt where the top bit is set, else the
/// exception that the code names.
pub fn classify(code: u64) -> (cause: TrapCause)
    ensures
        cause == cause_of(code),
{
    if code >= CAUSE_INTERRUPT {
        TrapCause::Interrupt
    } else if code == CAUSE_FETCH_GUEST_PAGE_FAULT {
        TrapCause::GuestPageFault(Access::Fetch)
    } else if code == CAUSE_LOAD_GUEST_PAGE_FAULT {
        TrapCause::GuestPageFault(Access::Load)
    } else if code == CAUSE_STORE_GUEST_PAGE_FAULT {
        TrapCause::GuestPageFault(Access::Store)
    } else if code == CAUSE_GUEST_CALL {
        TrapCause::GuestCall
    } else {
        TrapCause::Exception
    }
}

/// Decides what follows a trap of that cause.
pub fn route(cause: TrapCause) -> (action: TrapAction)
    ensures
        action == action_for(cause),
{
    match cause {
        TrapCause::GuestPageFault(_) => TrapAction::Halt,
        TrapCause::GuestCall => TrapAction::Halt,
        TrapCause::Interrupt => TrapAction::Halt,
        TrapCause::Exception => TrapAction::Halt,
    }
}

/// The value of the trap vector register for a handler at `handler`, in
/// direct mode: the address with its two lowest bits clear.
pub fn trap_vector(handler: u64) -> (value: u64)
    ensures
        value == handler - handler % 4,
        value % 4 == 0,
{
    handler - handler % 4
}

} // verus!
