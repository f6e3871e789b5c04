use armkernel::memory::{Chunk, FrameAllocator, Hole, FRAME_SIZE};
use armkernel::vm::PhysicalAddress;

fn hole(start: usize, size: usize) -> Hole {
    Hole { start, size }
}

fn total(a: &FrameAllocator) -> usize {
    a.holes().iter().map(|h| h.size).sum()
}

#[test]
fn adjacent_holes_merge_into_one() {
    let mut a = FrameAllocator::empty();
    a.insert_hole(PhysicalAddress(0), 4096);
    a.insert_hole(PhysicalAddress(4096), 4096);
    assert_eq!(a.holes(), vec![hole(0, 2)]);
}

#[test]
fn hole_before_merges_with_the_next() {
    let mut a = FrameAllocator::empty();
    a.insert_hole(PhysicalAddress(4096), 4096);
    a.insert_hole(PhysicalAddress(0), 4096);
    assert_eq!(a.holes(), vec![hole(0, 2)]);
}

#[test]
fn hole_between_two_bridges_them() {
    let mut a = FrameAllocator::empty();
    a.insert_hole(PhysicalAddress(0), 4096);
    a.insert_hole(PhysicalAddress(2 * 4096), 4096);
    assert_eq!(a.holes(), vec![hole(0, 1), hole(2, 1)]);
    a.insert_hole(PhysicalAddress(4096), 4096);
    assert_eq!(a.holes(), vec![hole(0, 3)]);
}

#[test]
fn separate_holes_stay_sorted_and_count_every_frame() {
    let mut a = FrameAllocator::empty();
    a.insert_hole(PhysicalAddress(0x10_0000), 5 * 4096);
    a.insert_hole(PhysicalAddress(0x1000), 2 * 4096);
    a.insert_hole(PhysicalAddress(0x8000), 3 * 4096);
    assert_eq!(a.holes(), vec![hole(1, 2), hole(8, 3), hole(0x100, 5)]);
    assert_eq!(total(&a), 10);
    assert_eq!(a.free_count(), 10);
    for pair in a.holes().windows(2) {
        assert!(pair[0].start + pair[0].size < pair[1].start);
    }
}

#[test]
fn partial_frames_are_left_out() {
    let mut a = FrameAllocator::empty();
    a.insert_hole(PhysicalAddress(0x1800), 3 * 4096);
    assert_eq!(a.holes(), vec![hole(1, 3)]);
    a.insert_hole(PhysicalAddress(0x10_0000), 4095);
    assert_eq!(a.holes(), vec![hole(1, 3)]);
}

#[test]
fn alloc_takes_the_first_frame() {
    let mut a = FrameAllocator::empty();
    a.insert_hole(PhysicalAddress(0xA000), 3 * 4096);
    a.insert_hole(PhysicalAddress(0x14000), 2 * 4096);
    assert_eq!(a.allocate(), PhysicalAddress(0xA000));
    assert_eq!(a.holes(), vec![hole(0xB, 2), hole(0x14, 2)]);
}

#[test]
fn alloc_then_dealloc_restores_the_holes() {
    let mut a = FrameAllocator::empty();
    a.insert_hole(PhysicalAddress(0xA000), 3 * 4096);
    a.insert_hole(PhysicalAddress(0x14000), 2 * 4096);
    let before = a.holes();
    let f = a.allocate();
    a.dealloc(f);
    assert_eq!(a.holes(), before);
}

#[test]
fn alloc_then_dealloc_restores_a_single_frame_hole() {
    let mut a = FrameAllocator::empty();
    a.insert_hole(PhysicalAddress(0xA000), 4096);
    a.insert_hole(PhysicalAddress(0x14000), 2 * 4096);
    let before = a.holes();
    let f = a.allocate();
    assert_eq!(f, PhysicalAddress(0xA000));
    assert_eq!(a.holes(), vec![hole(0x14, 2)]);
    a.dealloc(f);
    assert_eq!(a.holes(), before);
}

#[test]
fn alloc_range_takes_the_first_hole_that_fits() {
    let mut a = FrameAllocator::empty();
    a.insert_hole(PhysicalAddress(0x1000), 4096);
    a.insert_hole(PhysicalAddress(0x10000), 3 * 4096);
    a.insert_hole(PhysicalAddress(0x20000), 8 * 4096);
    let c = a.alloc_range(2 * 4096);
    assert_eq!(c, Chunk { phys: PhysicalAddress(0x10000), size: 2 * 4096 });
    assert_eq!(a.holes(), vec![hole(1, 1), hole(0x12, 1), hole(0x20, 8)]);
}

#[test]
fn alloc_range_rounds_up_to_whole_frames() {
    let mut a = FrameAllocator::empty();
    a.insert_hole(PhysicalAddress(0x10000), 3 * 4096);
    let c = a.alloc_range(5000);
    assert_eq!(c, Chunk { phys: PhysicalAddress(0x10000), size: 2 * FRAME_SIZE });
    assert_eq!(a.holes(), vec![hole(0x12, 1)]);
}

#[test]
fn alloc_range_removes_a_hole_it_empties() {
    let mut a = FrameAllocator::empty();
    a.insert_hole(PhysicalAddress(0x1000), 4096);
    a.insert_hole(PhysicalAddress(0x10000), 3 * 4096);
    let c = a.alloc_range(3 * 4096);
    assert_eq!(c, Chunk { phys: PhysicalAddress(0x10000), size: 3 * 4096 });
    assert_eq!(a.holes(), vec![hole(1, 1)]);
}

#[test]
fn alloc_range_falls_back_to_the_whole_first_hole() {
    let mut a = FrameAllocator::empty();
    a.insert_hole(PhysicalAddress(0x1000), 4096);
    a.insert_hole(PhysicalAddress(0x10000), 3 * 4096);
    let c = a.alloc_range(4 * 4096);
    assert_eq!(c, Chunk { phys: PhysicalAddress(0x1000), size: 4096 });
    assert_eq!(a.holes(), vec![hole(0x10, 3)]);
    let c = a.alloc_range(3 * 4096);
    assert_eq!(c, Chunk { phys: PhysicalAddress(0x10000), size: 3 * 4096 });
    assert!(a.holes().is_empty());
}

#[test]
fn alloc_range_of_nothing_changes_nothing() {
    let mut a = FrameAllocator::empty();
    a.insert_hole(PhysicalAddress(0x1000), 2 * 4096);
    let c = a.alloc_range(0);
    assert_eq!(c, Chunk { phys: PhysicalAddress(0x1000), size: 0 });
    assert_eq!(a.holes(), vec![hole(1, 2)]);
}

#[test]
fn address_arithmetic() {
    let p = PhysicalAddress(0x1000);
    assert_eq!(p.add(0x234), PhysicalAddress(0x1234));
    assert_eq!(PhysicalAddress(0x3000).sub(p), 0x2000);
    let mut q = p;
    q.add_assign(8);
    assert_eq!(q, PhysicalAddress(0x1008));
    let v = armkernel::vm::VirtualAddress(0x4000);
    assert_eq!(v.add(4096), armkernel::vm::VirtualAddress(0x5000));
    assert_eq!(armkernel::vm::VirtualAddress(0x5000).sub(v), 4096);
    let mut w = v;
    w.add_assign(1);
    assert_eq!(w, armkernel::vm::VirtualAddress(0x4001));
}

#[test]
fn addresses_show_their_kind() {
    let p = PhysicalAddress(0x4020_0000).debug_text();
    assert_eq!(String::from_utf8(p).unwrap(), "0p40200000");
    let v = armkernel::vm::VirtualAddress(0xFFFF_FF00_0000_0000).debug_text();
    assert_eq!(String::from_utf8(v).unwrap(), "0vffffff0000000000");
    let z = armkernel::vm::VirtualAddress(0xab).debug_text();
    assert_eq!(String::from_utf8(z).unwrap(), "0v000000ab");
}
