//! The virtual hart: its states, and the registers that enter the guest.

use vstd::prelude::*;
use crate::guest_page_table::GuestPageTable;
use crate::trap::{action_for, cause_of, classify, route, TrapAction, TrapCause, TrapContext};

verus! {

/// The status value that enters the guest: the guest runs with 64-bit
/// registers (bits 33 and 32 hold 2), and the next return from a trap goes
/// into the guest (bit 7).
pub const HSTATUS_ENTER_GUEST: u64 = 0x2_0000_0080;

/// Where a virtual hart stands.
#[derive(Clone, Copy, Debug, PartialEq, Eq, Structural)]
pub enum VCpuState {
    /// Bound to a tree and an entry address; never run.
    Created,
    /// The guest runs.
    Running,
    /// A trap has been taken and its context is held.
    Trapped,
    /// Stopped for good.
    Halted,
}

/// Why a step of a virtual hart was refused.
#[derive(Clone, Copy, Debug, PartialEq, Eq, Structural)]
pub enum VCpuError {
    /// The hart is not in the state that the step starts from.
    WrongState,
}

/// The registers to write before the return that enters the guest.
#[derive(Clone, Copy, Debug, PartialEq, Eq, Structural)]
pub struct WorldSwitch {
    /// The activation value of the guest's tree.
    pub hgatp: u64,
    /// The status value.
    pub hstatus: u64,
    /// The program counter at which the guest goes on.
    pub sepc: u64,
}

/// One virtual hart: the activation value of the tree it runs under, the
/// program counter of the guest, and, while a trap is handled, what the trap
/// captured.
pub struct VCpu {
    pub hgatp: u64,
    pub sepc: u64,
    pub state: VCpuState,
    pub context: Option<TrapContext>,
}

impl VCpu {
    /// A context is held exactly while a trap is handled.
    pub open spec fn wf(&self) -> bool {
        self.context is Some <==> self.state == VCpuState::Trapped
    }

    /// Binds a hart to the tree of its guest and to the address at which
    /// the guest starts. Nothing runs yet.
    pub fn new(table: &GuestPageTable, guest_entry: u64) -> (vcpu: VCpu)
        requires
            table.wf(),
        ensures
            vcpu.wf(),
            vcpu.hgatp == table@.activation_value(),
            vcpu.sepc == guest_entry,
            vcpu.state == VCpuState::Created,
    {
        VCpu { hgatp: table.hgatp(), sepc: guest_entry, state: VCpuState::Created, context: None }
    }

    /// Enters the guest for the first time: the hart runs from now on, and
    /// the registers to write are the activation value, the status that
    /// enters the guest, and the entry address. Only a hart that never ran
    /// is entered so.
    pub fn run(&mut self) -> (r: Result<WorldSwitch, VCpuError>)
        requires
            old(self).wf(),
        ensures
            final(self).wf(),
            final(self).hgatp == old(self).hgatp,
            final(self).sepc == old(self).sepc,
            old(self).state == VCpuState::Created ==> final(self).state == VCpuState::Running && r
                == Ok::<WorldSwitch, VCpuError>(
                WorldSwitch {
                    hgatp: old(self).hgatp,
                    hstatus: HSTATUS_ENTER_GUEST,
                    sepc: old(self).sepc,
                },
            ),
            old(self).state != VCpuState::Created ==> *final(self) == *old(self) && r == Err::<
                WorldSwitch,
                VCpuError,
            >(VCpuError::WrongState),
    {
        match self.state {
            VCpuState::Created => {
                self.state = VCpuState::Running;
                Ok(WorldSwitch { hgatp: self.hgatp, hstatus: HSTATUS_ENTER_GUEST, sepc: self.sepc })
            },
            _ => Err(VCpuError::WrongState),
        }
    }

    /// Takes a trap from the running guest: the context is held, the program
    /// counter of the guest is the one that the trap saved, and the cause is
    /// sorted. Only a running hart traps.
    pub fn trap(&mut self, context: TrapContext) -> (r: Result<TrapCause, VCpuError>)
        requires
            old(self).wf(),
        ensures
            final(self).wf(),
            final(self).hgatp == old(self).hgatp,
            old(self).state == VCpuState::Running ==> {
                &&& final(self).state == VCpuState::Trapped
                &&& final(self).context == Some(context)
                &&& final(self).sepc == context.guest_pc
                &&& r == Ok::<TrapCause, VCpuError>(cause_of(context.cause))
            },
            old(self).state != VCpuState::Running ==> *final(self) == *old(self) && r == Err::<
                TrapCause,
                VCpuError,
            >(VCpuError::WrongState),
    {
        match self.state {
            VCpuState::Running => {
                self.state = VCpuState::Trapped;
                self.sepc = context.guest_pc;
                self.context = Some(context);
                Ok(classify(context.cause))
            },
            _ => Err(VCpuError::WrongState),
        }
    }

    /// Ends the handling of a trap as the router decides for its cause. To
    /// resume is to give the context back, with the registers to write, and
    /// to run again; to halt is to drop the context and to stop for good.
    /// Only a trapped hart is resumed or halted.
    pub fn finish_trap(&mut self) -> (r: Result<
        (TrapAction, Option<(TrapContext, WorldSwitch)>),
        VCpuError,
    >)
        requires
            old(self).wf(),
        ensures
            final(self).wf(),
            final(self).hgatp == old(self).hgatp,
            final(self).sepc == old(self).sepc,
            final(self).context is None,
            old(self).state != VCpuState::Trapped ==> *final(self) == *old(self) && r is Err,
            old(self).state == VCpuState::Trapped ==> {
                let action = action_for(cause_of(old(self).context.unwrap().cause));
                &&& final(self).state == match action {
                    TrapAction::Resume => VCpuState::Running,
                    TrapAction::Halt => VCpuState::Halted,
                }
                &&& r == Ok::<(TrapAction, Option<(TrapContext, WorldSwitch)>), VCpuError>(
                    (
                        action,
                        match action {
                            TrapAction::Resume => Some(
                                (
                                    old(self).context.unwrap(),
                                    WorldSwitch {
                                        hgatp: old(self).hgatp,
                                        hstatus: HSTATUS_ENTER_GUEST,
                                        sepc: old(self).sepc,
                                    },
                                ),
                            ),
                            TrapAction::Halt => None,
                        },
                    ),
                )
            },
    {
        match self.state {
            VCpuState::Trapped => {},
            _ => {
                return Err(VCpuError::WrongState);
            },
        }
        let context = match self.context.take() {
            Some(context) => context,
            None => {
                return Err(VCpuError::WrongState);
            },
        };
        match route(classify(context.cause)) {
            TrapAction::Resume => {
                self.state = VCpuState::Running;
                Ok(
                    (
                        TrapAction::Resume,
                        Some(
                            (
                                context,
                                WorldSwitch {
                                    hgatp: self.hgatp,
                                    hstatus: HSTATUS_ENTER_GUEST,
                                    sepc: self.sepc,
                                },
                            ),
                        ),
                    ),
                )
            },
            TrapAction::Halt => {
                self.state = VCpuState::Halted;
                Ok((TrapAction::Halt, None))
            },
        }
    }
}

} // verus!
