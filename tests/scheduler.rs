use armkernel::context::{Context, ControlRegisters};
use armkernel::memory::FrameAllocator;
use armkernel::sched::{Scheduler, SCHED_CAPACITY};
use armkernel::syscall::syscall_yield;
use armkernel::vm::PhysicalAddress;

#[test]
fn ids_come_out_in_insertion_order() {
    let mut s = Scheduler::new();
    assert_eq!(s.try_insert(1), Ok(()));
    assert_eq!(s.try_insert(2), Ok(()));
    assert_eq!(s.try_insert(3), Ok(()));
    assert_eq!(s.try_get(), Some(1));
    assert_eq!(s.try_get(), Some(2));
    assert_eq!(s.try_get(), Some(3));
    assert_eq!(s.try_get(), None);
}

#[test]
fn a_full_queue_refuses_the_id() {
    let mut s = Scheduler::new();
    for i in 0..SCHED_CAPACITY {
        assert_eq!(s.try_insert(i), Ok(()));
    }
    assert_eq!(s.len(), SCHED_CAPACITY);
    assert_eq!(s.try_insert(9999), Err(9999));
    assert_eq!(s.try_get(), Some(0));
    assert_eq!(s.try_insert(9999), Ok(()));
}

#[test]
fn yield_queues_the_caller_and_picks_the_oldest() {
    let mut f = FrameAllocator::empty();
    f.insert_hole(PhysicalAddress(0x20_0000), 8 * 4096);
    let mut cx = Context::new(1, &mut f);
    let mut c = ControlRegisters { sp_el0: 0, elr_el1: 0, spsr_el1: 0, ttbr0_el1: 0 };
    let h = cx.enter(&mut c);
    let mut s = Scheduler::new();
    assert_eq!(s.try_insert(2), Ok(()));
    assert_eq!(syscall_yield(&mut s, &h), Some(2));
    assert_eq!(s.try_get(), Some(1));
    // alone, the caller runs on
    assert_eq!(syscall_yield(&mut s, &h), Some(1));
    assert_eq!(s.len(), 0);
}

#[test]
fn yield_with_a_full_queue_keeps_the_caller() {
    let mut f = FrameAllocator::empty();
    f.insert_hole(PhysicalAddress(0x20_0000), 8 * 4096);
    let mut cx = Context::new(7, &mut f);
    let mut c = ControlRegisters { sp_el0: 0, elr_el1: 0, spsr_el1: 0, ttbr0_el1: 0 };
    let h = cx.enter(&mut c);
    let mut s = Scheduler::new();
    for i in 0..SCHED_CAPACITY {
        assert_eq!(s.try_insert(100 + i), Ok(()));
    }
    assert_eq!(syscall_yield(&mut s, &h), Some(7));
    assert_eq!(s.len(), SCHED_CAPACITY);
    assert_eq!(s.try_get(), Some(100));
}
