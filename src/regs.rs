use vstd::prelude::*;

verus! {

/// The cause of a synchronous exception, from bits [31:26] of the syndrome register.
#[derive(Clone, Copy, Debug, PartialEq, Eq, Structural)]
pub enum ExceptionClass {
    Unknown,
    SimdOrFpTrapped,
    IllegalExecutionState,
    SvcAa64,
    InstructionAbortLowerEl,
    InstructionAbortSameEl,
    PcAlignment,
    DataAbortLowerEl,
    DataAbortSameEl,
    SpAlignment,
    SError,
    BreakpointLowerEl,
    BreakpointSameEl,
    SoftwareStepLowerEl,
    SoftwareStepSameEl,
    WatchpointLowerEl,
    WatchpointSameEl,
}

/// The exception class that the six class bits name.
pub open spec fn class_of(bits: u64) -> ExceptionClass {
    if bits == 0x07 {
        ExceptionClass::SimdOrFpTrapped
    } else if bits == 0x0E {
        ExceptionClass::IllegalExecutionState
    } else if bits == 0x15 {
        ExceptionClass::SvcAa64
    } else if bits == 0x20 {
        ExceptionClass::InstructionAbortLowerEl
    } else if bits == 0x21 {
        ExceptionClass::InstructionAbortSameEl
    } else if bits == 0x22 {
        ExceptionClass::PcAlignment
    } else if bits == 0x24 {
        ExceptionClass::DataAbortLowerEl
    } else if bits == 0x25 {
        ExceptionClass::DataAbortSameEl
    } else if bits == 0x26 {
        ExceptionClass::SpAlignment
    } else if bits == 0x2F {
        ExceptionClass::SError
    } else if bits == 0x30 {
        ExceptionClass::BreakpointLowerEl
    } else if bits == 0x31 {
        ExceptionClass::BreakpointSameEl
    } else if bits == 0x32 {
        ExceptionClass::SoftwareStepLowerEl
    } else if bits == 0x33 {
        ExceptionClass::SoftwareStepSameEl
    } else if bits == 0x34 {
        ExceptionClass::WatchpointLowerEl
    } else if bits == 0x35 {
        ExceptionClass::WatchpointSameEl
    } else {
        ExceptionClass::Unknown
    }
}

/// A decoded exception syndrome.
#[derive(Clone, Copy, Debug, PartialEq, Eq)]
pub struct ExceptionSyndrome {
    /// Clear where a 16-bit instruction trapped; set for a 32-bit one, or where it does not apply.
    pub instr_len: bool,
    pub cause: ExceptionClass,
    /// The instruction-specific syndrome, bits [23:0]; for a supervisor call, its immediate.
    pub iss: u32,
}

impl ExceptionSyndrome {
    /// Decodes the value of the syndrome register.
    pub fn from_esr(esr: u64) -> (r: Self)
        ensures
            r.instr_len == ((esr >> 25u64) & 1 == 1),
            r.cause == class_of((esr >> 26u64) & 0x3F),
            r.iss == (esr & 0x00FF_FFFF) as u32,
    {
        let instr_len = ((esr >> 25) & 1) == 1;
        let class_bits = (esr >> 26) & 0x3F;
        let cause = if class_bits == 0x07 {
            ExceptionClass::SimdOrFpTrapped
        } else if class_bits == 0x0E {
            ExceptionClass::IllegalExecutionState
        } else if class_bits == 0x15 {
            ExceptionClass::SvcAa64
        } else if class_bits == 0x20 {
            ExceptionClass::InstructionAbortLowerEl
        } else if class_bits == 0x21 {
            ExceptionClass::InstructionAbortSameEl
        } else if class_bits == 0x22 {
            ExceptionClass::PcAlignment
        } else if class_bits == 0x24 {
            ExceptionClass::DataAbortLowerEl
        } else if class_bits == 0x25 {
            ExceptionClass::DataAbortSameEl
        } else if class_bits == 0x26 {
            ExceptionClass::SpAlignment
        } else if class_bits == 0x2F {
            ExceptionClass::SError
        } else if class_bits == 0x30 {
            ExceptionClass::BreakpointLowerEl
        } else if class_bits == 0x31 {
            ExceptionClass::BreakpointSameEl
        } else if class_bits == 0x32 {
            ExceptionClass::SoftwareStepLowerEl
        } else if class_bits == 0x33 {
            ExceptionClass::SoftwareStepSameEl
        } else if class_bits == 0x34 {
            ExceptionClass::WatchpointLowerEl
        } else if class_bits == 0x35 {
            ExceptionClass::WatchpointSameEl
        } else {
            ExceptionClass::Unknown
        };
        let iss = (esr & 0x00FF_FFFF) as u32;
        ExceptionSyndrome { instr_len, cause, iss }
    }
}

/// Where a trap came from, as the vector entry reports it.
#[derive(Clone, Copy, Debug, PartialEq, Eq, Structural)]
pub enum InterruptSource {
    CurrentElSpEl0,
    CurrentElSpElx,
    LowerElAa64,
    LowerElAa32,
}

/// What kind of trap the vector entry took.
#[derive(Clone, Copy, Debug, PartialEq, Eq, Structural)]
pub enum InterruptType {
    Synchronous,
    Irq,
    Fiq,
    SError,
}

/// Where the dispatcher sends a trap.
#[derive(Clone, Copy, Debug, PartialEq, Eq, Structural)]
pub enum TrapRoute {
    /// A supervisor call from 64-bit user code: to the system-call dispatcher.
    Syscall,
    /// Anything else: logged, with no recovery.
    Unhandled,
}

/// Classifies a trap: only a synchronous supervisor call taken from 64-bit code at the lower
/// exception level is a system call.
pub fn route_trap(source: InterruptSource, ty: InterruptType, syndrome: &ExceptionSyndrome) -> (r: TrapRoute)
    ensures
        r == (if source == InterruptSource::LowerElAa64 && ty == InterruptType::Synchronous
            && syndrome.cause == ExceptionClass::SvcAa64 {
            TrapRoute::Syscall
        } else {
            TrapRoute::Unhandled
        }),
{
    match (source, ty, syndrome.cause) {
        (InterruptSource::LowerElAa64, InterruptType::Synchronous, ExceptionClass::SvcAa64) => TrapRoute::Syscall,
        _ => TrapRoute::Unhandled,
    }
}

} // verus!
