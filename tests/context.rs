use armkernel::context::{
    get_current_user_table, ActiveContext, Context, ControlRegisters, Registers, SuspendedContext,
    USER_STACK, USER_STACK_SIZE,
};
use armkernel::memory::FrameAllocator;
use armkernel::table::Slot;
use armkernel::vm::{PhysicalAddress, VirtualAddress};

fn frames(base: usize, count: usize) -> FrameAllocator {
    let mut a = FrameAllocator::empty();
    a.insert_hole(PhysicalAddress(base), count * 4096);
    a
}

fn cpu() -> ControlRegisters {
    ControlRegisters { sp_el0: 0, elr_el1: 0, spsr_el1: 0, ttbr0_el1: 0 }
}

fn registers(seed: usize) -> Registers {
    let mut x = [0usize; 31];
    for (i, r) in x.iter_mut().enumerate() {
        *r = seed * 100 + i;
    }
    Registers { x }
}

#[test]
fn enter_suspend_enter_round_trip() {
    let s = SuspendedContext {
        table: PhysicalAddress(0x4123_4000),
        registers: registers(7),
        sp: VirtualAddress(0x7FFF_FFF0),
        elr: VirtualAddress(0x40_1234),
        spsr: 0x3C5,
    };
    let mut c = cpu();
    let a = s.enter(&mut c);
    assert_eq!(c, ControlRegisters { sp_el0: 0x7FFF_FFF0, elr_el1: 0x40_1234, spsr_el1: 0x3C5, ttbr0_el1: 0x4123_4000 });
    let back = a.suspend(&c);
    assert_eq!(back.table, s.table);
    assert_eq!(back.registers.x, s.registers.x);
    assert_eq!((back.sp, back.elr, back.spsr), (s.sp, s.elr, s.spsr));
    let mut c2 = cpu();
    let again = back.enter(&mut c2);
    assert_eq!(c2, c);
    assert_eq!(again.registers.x, s.registers.x);
}

#[test]
fn suspend_masks_the_translation_base() {
    let c = ControlRegisters { sp_el0: 1, elr_el1: 2, spsr_el1: 3, ttbr0_el1: 0x0001_0000_4000_1001 };
    assert_eq!(get_current_user_table(&c), PhysicalAddress(0x4000_1000));
    let a = ActiveContext { registers: registers(1) };
    assert_eq!(a.suspend(&c).table, PhysicalAddress(0x4000_1000));
}

#[test]
fn new_context_takes_a_frame_and_starts_suspended() {
    let mut f = frames(0x20_0000, 8);
    let s = SuspendedContext::new(&mut f);
    assert_eq!(s.table, PhysicalAddress(0x20_0000));
    assert_eq!(s.registers.x, [0usize; 31]);
    let cx = Context::new(3, &mut f);
    assert_eq!(cx.id, 3);
    assert!(!cx.is_active());
    assert_eq!(f.holes().iter().map(|h| h.size).sum::<usize>(), 6);
}

#[test]
fn entering_a_context_installs_its_snapshot() {
    let mut f = frames(0x20_0000, 8);
    let mut cx = Context::new(1, &mut f);
    let mut c = cpu();
    let h = cx.enter(&mut c);
    assert!(cx.is_active());
    assert_eq!(h.context_id(), 1);
    assert_eq!(c.ttbr0_el1, 0x20_0000);
    assert_eq!(h.arch(&cx).registers.x, [0usize; 31]);
}

#[test]
fn init_maps_the_stack_and_the_window() {
    let mut f = frames(0x20_0000, 32);
    let mut cx = Context::new(1, &mut f);
    let mut c = cpu();
    let h = cx.enter(&mut c);
    assert_eq!(h.init(&mut cx, &mut f, &mut c), Ok(()));
    assert_eq!(c.sp_el0, USER_STACK + USER_STACK_SIZE);
    let t = h.table(&mut cx);
    assert!(matches!(t.lookup(VirtualAddress(USER_STACK)), Slot::Page(_)));
    assert_eq!(t.lookup(VirtualAddress(0x0000_FFFF_FFFF_F000)), Slot::Fixed);
    assert_eq!(h.init(&mut cx, &mut f, &mut c), Err(armkernel::vm::MapError::AlreadyMapped));
}

#[test]
fn entry_point_and_stack_pointer() {
    let a = ActiveContext { registers: registers(0) };
    let mut c = cpu();
    a.set_entry_point(&mut c, VirtualAddress(0x40_0000));
    a.set_stack_pointer(&mut c, VirtualAddress(0x8000_0000));
    assert_eq!(c, ControlRegisters { sp_el0: 0x8000_0000, elr_el1: 0x40_0000, spsr_el1: 0, ttbr0_el1: 0 });
    let mut f = frames(0x20_0000, 8);
    let mut cx = Context::new(5, &mut f);
    let h = cx.enter(&mut c);
    h.set_entry_point(&mut c, VirtualAddress(0x1234));
    assert_eq!(c.elr_el1, 0x1234);
}

#[test]
fn syscall_slots_are_the_first_eight_registers() {
    let mut a = ActiveContext { registers: registers(2) };
    let p = a.syscall_params();
    assert_eq!(p, [200, 201, 202, 203, 204, 205, 206, 207]);
    a.set_syscall_params([9, 8, 7, 6, 5, 4, 3, 2]);
    assert_eq!(&a.registers.x[..8], &[9, 8, 7, 6, 5, 4, 3, 2]);
    assert_eq!(a.registers.x[8], 208);
}

#[test]
fn switch_to_swaps_the_running_context() {
    let mut f = frames(0x20_0000, 8);
    let mut first = Context::new(0, &mut f);
    let mut second = Context::new(1, &mut f);
    let mut c = cpu();
    let h = first.enter(&mut c);
    c.sp_el0 = 0x7000;
    c.elr_el1 = 0x4444;
    let mut live = h.arch(&first);
    live.registers.x[3] = 33;
    h.set_arch(&mut first, live);
    let h2 = h.switch_to(&mut first, &mut second, &mut c);
    assert_eq!(h2.context_id(), 1);
    assert!(!first.is_active());
    assert!(second.is_active());
    assert_eq!(c.ttbr0_el1, 0x20_1000);
    // and back: the first context resumes where it stopped
    let h3 = h2.switch_to(&mut second, &mut first, &mut c);
    assert_eq!(h3.context_id(), 0);
    assert_eq!((c.sp_el0, c.elr_el1, c.ttbr0_el1), (0x7000, 0x4444, 0x20_0000));
    assert_eq!(h3.arch(&first).registers.x[3], 33);
}

#[test]
fn switch_to_itself_changes_nothing() {
    let mut f = frames(0x20_0000, 8);
    let mut cx = Context::new(4, &mut f);
    let mut twin = Context::new(4, &mut f);
    let mut c = cpu();
    let h = cx.enter(&mut c);
    let before = c;
    let h2 = h.switch_to(&mut cx, &mut twin, &mut c);
    assert_eq!(h2.context_id(), 4);
    assert!(cx.is_active());
    assert!(!twin.is_active());
    assert_eq!(c, before);
}

#[test]
fn get_handle_takes_the_trapped_registers() {
    let mut f = frames(0x20_0000, 8);
    let mut cx = Context::new(2, &mut f);
    let mut c = cpu();
    let _ = cx.enter(&mut c);
    let h = cx.get_handle(ActiveContext { registers: registers(9) });
    assert_eq!(h.context_id(), 2);
    assert_eq!(h.arch(&cx).registers.x[30], 930);
}
