//! What the kernel does with each kind of trap from user mode.
use vstd::prelude::*;

verus! {

/// Exit code of a task killed by a page fault.
pub const EXIT_PAGE_FAULT: i32 = -2;

/// Exit code of a task killed by an illegal instruction.
pub const EXIT_ILLEGAL_INSTRUCTION: i32 = -3;

/// A trap from user mode.
#[derive(Debug, Clone, Copy, PartialEq, Eq, Structural)]
pub enum TrapEvent {
    SysCall,
    /// A load, store or instruction page fault at this address.
    PageFault(usize),
    IllegalInstruction,
    Timer,
    /// Anything else; the kernel cannot go on.
    Unexpected,
}

/// What to do about a trap.
#[derive(Debug, Clone, Copy, PartialEq, Eq, Structural)]
pub enum TrapAction {
    /// Step past the call instruction, run the system call and store its result.
    Syscall,
    /// Terminate the task with this exit code and run the next one.
    Kill(i32),
    /// Suspend the task and run the next one.
    Yield,
    /// A kernel invariant is broken.
    Fatal,
}

/// The action for each trap: faults of user code end the faulting task with
/// a non-zero exit code, the kernel itself goes on.
pub fn trap_action(ev: TrapEvent) -> (r: TrapAction)
    ensures
        r == match ev {
            TrapEvent::SysCall => TrapAction::Syscall,
            TrapEvent::PageFault(_) => TrapAction::Kill(EXIT_PAGE_FAULT),
            TrapEvent::IllegalInstruction => TrapAction::Kill(EXIT_ILLEGAL_INSTRUCTION),
            TrapEvent::Timer => TrapAction::Yield,
            TrapEvent::Unexpected => TrapAction::Fatal,
        },
        r matches TrapAction::Kill(code) ==> code != 0,
{
    match ev {
        TrapEvent::SysCall => TrapAction::Syscall,
        TrapEvent::PageFault(_) => TrapAction::Kill(EXIT_PAGE_FAULT),
        TrapEvent::IllegalInstruction => TrapAction::Kill(EXIT_ILLEGAL_INSTRUCTION),
        TrapEvent::Timer => TrapAction::Yield,
        TrapEvent::Unexpected => TrapAction::Fatal,
    }
}

} // verus!
