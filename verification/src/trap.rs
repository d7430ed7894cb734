//! Trap classification: what the kernel does for each trap cause.
//!
//! Reading the cause and status registers, saving and restoring the
//! register file and switching address spaces is trampoline and CSR work
//! outside the library; the decision — syscall, preemption, or a fatal
//! signal — is fixed here.

use vstd::prelude::*;
use crate::process::{SIGILL, SIGSEGV};

verus! {

/// The trap causes the kernel handles.
#[derive(Clone, Copy, PartialEq, Eq, Structural, Debug)]
pub enum TrapCause {
    /// An `ecall` from user mode.
    UserEnvCall,
    /// The supervisor timer fired.
    SupervisorTimer,
    StoreFault,
    StorePageFault,
    InstructionFault,
    InstructionPageFault,
    LoadFault,
    LoadPageFault,
    IllegalInstruction,
}

/// What the handler does about a trap.
#[derive(Clone, Copy, PartialEq, Eq, Structural, Debug)]
pub enum TrapAction {
    /// Step past the `ecall`, run the system call, store its result in
    /// `a0` — re-reading the trap-frame pointer afterwards, since `exec`
    /// replaces the frame.
    Syscall,
    /// Re-arm the next tick, wake expired sleepers, then move the running
    /// thread to the back of the ready queue.
    Preempt,
    /// Flag the process with a fatal signal; it is killed on the way out.
    Fatal(u32),
}

/// Which action each trap cause demands: an environment call runs the
/// dispatcher, the timer preempts, memory and instruction faults flag a
/// bad access, an illegal instruction flags an illegal instruction.
pub open spec fn action_for(cause: TrapCause) -> TrapAction {
    match cause {
        TrapCause::UserEnvCall => TrapAction::Syscall,
        TrapCause::SupervisorTimer => TrapAction::Preempt,
        TrapCause::StoreFault => TrapAction::Fatal(SIGSEGV),
        TrapCause::StorePageFault => TrapAction::Fatal(SIGSEGV),
        TrapCause::InstructionFault => TrapAction::Fatal(SIGSEGV),
        TrapCause::InstructionPageFault => TrapAction::Fatal(SIGSEGV),
        TrapCause::LoadFault => TrapAction::Fatal(SIGSEGV),
        TrapCause::LoadPageFault => TrapAction::Fatal(SIGSEGV),
        TrapCause::IllegalInstruction => TrapAction::Fatal(SIGILL),
    }
}

/// Classify a trap from user space. The assembly entry saved the user's
/// registers already; whatever this returns, the caller afterwards checks
/// the pending signals and exits the thread if a fatal one is set.
pub fn trap_handler(cause: TrapCause) -> (r: TrapAction)
    ensures
        r == action_for(cause),
{
    match cause {
        TrapCause::UserEnvCall => TrapAction::Syscall,
        TrapCause::SupervisorTimer => TrapAction::Preempt,
        TrapCause::StoreFault => TrapAction::Fatal(SIGSEGV),
        TrapCause::StorePageFault => TrapAction::Fatal(SIGSEGV),
        TrapCause::InstructionFault => TrapAction::Fatal(SIGSEGV),
        TrapCause::InstructionPageFault => TrapAction::Fatal(SIGSEGV),
        TrapCause::LoadFault => TrapAction::Fatal(SIGSEGV),
        TrapCause::LoadPageFault => TrapAction::Fatal(SIGSEGV),
        TrapCause::IllegalInstruction => TrapAction::Fatal(SIGILL),
    }
}

} // verus!
