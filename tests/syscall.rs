use armkernel::context::{Context, ControlRegisters, USER_STACK};
use armkernel::memory::FrameAllocator;
use armkernel::regs::{route_trap, ExceptionClass, ExceptionSyndrome, InterruptSource, InterruptType, TrapRoute};
use armkernel::syscall::{dispatch, user_pointer, user_slice, SyscallAction, SyscallError};
use armkernel::vm::PhysicalAddress;

#[test]
fn print_with_a_valid_pointer_into_the_stack() {
    let mut f = FrameAllocator::empty();
    f.insert_hole(PhysicalAddress(0x20_0000), 32 * 4096);
    let mut cx = Context::new(1, &mut f);
    let mut c = ControlRegisters { sp_el0: 0, elr_el1: 0, spsr_el1: 0, ttbr0_el1: 0 };
    let h = cx.enter(&mut c);
    assert_eq!(h.init(&mut cx, &mut f, &mut c), Ok(()));
    let base = USER_STACK + 0x100;
    let mut params = [1, base, 13, 0, 0, 0, 0, 99];
    assert_eq!(dispatch(1, &mut params), SyscallAction::Print { base, len: 13 });
    assert_eq!(params, [1, base, 13, 0, 0, 0, 0, 0]);
}

#[test]
fn print_with_a_pointer_above_the_lower_half() {
    let mut params = [1, 0x0001_0000_0000_0000, 4, 0, 0, 0, 0, 0];
    assert_eq!(dispatch(1, &mut params), SyscallAction::Resume);
    assert_eq!(params[7], 1);
    assert_eq!(&params[..7], &[1, 0x0001_0000_0000_0000, 4, 0, 0, 0, 0]);
}

#[test]
fn exit_yield_and_unknown_numbers() {
    let mut params = [0usize; 8];
    assert_eq!(dispatch(0, &mut params), SyscallAction::Exit);
    assert_eq!(dispatch(2, &mut params), SyscallAction::Yield);
    assert_eq!(dispatch(7, &mut params), SyscallAction::Exit);
    assert_eq!(params, [0usize; 8]);
}

#[test]
fn user_pointer_checks() {
    assert_eq!(user_pointer(0x0000_FFFF_FFFF_FFFF, 1), Ok(()));
    assert_eq!(user_pointer(0x0001_0000_0000_0000, 1), Err(SyscallError::InvalidPointer));
    assert_eq!(user_pointer(0x1004, 8), Err(SyscallError::InvalidPointer));
    assert_eq!(user_pointer(0x1008, 8), Ok(()));
    assert_eq!(user_slice(0x1003, 5), Ok(()));
    assert_eq!(SyscallError::InvalidPointer.code(), 1);
}

#[test]
fn syndrome_decoding() {
    let esr: u64 = (0x15 << 26) | (1 << 25) | 2;
    let s = ExceptionSyndrome::from_esr(esr);
    assert_eq!(s, ExceptionSyndrome { instr_len: true, cause: ExceptionClass::SvcAa64, iss: 2 });
    assert_eq!(ExceptionSyndrome::from_esr(0x24 << 26).cause, ExceptionClass::DataAbortLowerEl);
    assert_eq!(ExceptionSyndrome::from_esr(0x35 << 26).cause, ExceptionClass::WatchpointSameEl);
    assert_eq!(ExceptionSyndrome::from_esr(0x3F << 26).cause, ExceptionClass::Unknown);
    assert_eq!(ExceptionSyndrome::from_esr(0xFFFF_FFFF).iss, 0x00FF_FFFF);
}

#[test]
fn only_lower_el_supervisor_calls_are_syscalls() {
    let svc = ExceptionSyndrome::from_esr(0x15 << 26);
    let abort = ExceptionSyndrome::from_esr(0x24 << 26);
    assert_eq!(route_trap(InterruptSource::LowerElAa64, InterruptType::Synchronous, &svc), TrapRoute::Syscall);
    assert_eq!(route_trap(InterruptSource::LowerElAa64, InterruptType::Synchronous, &abort), TrapRoute::Unhandled);
    assert_eq!(route_trap(InterruptSource::CurrentElSpElx, InterruptType::Synchronous, &svc), TrapRoute::Unhandled);
    assert_eq!(route_trap(InterruptSource::LowerElAa64, InterruptType::Irq, &svc), TrapRoute::Unhandled);
}
