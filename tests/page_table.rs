use armkernel::memory::FrameAllocator;
use armkernel::table::{
    IntermediateTable, IntermediateTableEntry, Level3Table, Level3TableEntry, NextTable, PageOrBlockDesc,
    Slot, RECURSIVE_SLOT,
};
use armkernel::vm::{MapError, PhysicalAddress, VirtualAddress};

fn frames(base: usize, count: usize) -> FrameAllocator {
    let mut a = FrameAllocator::empty();
    a.insert_hole(PhysicalAddress(base), count * 4096);
    a
}

#[test]
fn map_to_maps_every_page() {
    let mut f = frames(0x100_0000, 64);
    let mut t = IntermediateTable::new(0);
    assert_eq!(t.map_to(&mut f, VirtualAddress(0x40_0000), PhysicalAddress(0x8000_0000), 3 * 4096), Ok(()));
    assert_eq!(t.lookup(VirtualAddress(0x40_0000)), Slot::Page(0x8000_0000));
    assert_eq!(t.lookup(VirtualAddress(0x40_1000)), Slot::Page(0x8000_1000));
    assert_eq!(t.lookup(VirtualAddress(0x40_2fff)), Slot::Page(0x8000_2000));
    assert_eq!(t.lookup(VirtualAddress(0x40_3000)), Slot::Free);
    assert_eq!(t.lookup(VirtualAddress(0x3f_f000)), Slot::Free);
    // one table at each of levels 1, 2 and 3
    assert_eq!(f.holes().iter().map(|h| h.size).sum::<usize>(), 61);
}

#[test]
fn mapping_across_tables() {
    let mut f = frames(0x100_0000, 64);
    let mut t = IntermediateTable::new(0);
    let virt = VirtualAddress(0x5F_F000);
    assert_eq!(t.map_to(&mut f, virt, PhysicalAddress(0x9000_0000), 2 * 4096), Ok(()));
    assert_eq!(t.lookup(VirtualAddress(0x5F_F000)), Slot::Page(0x9000_0000));
    assert_eq!(t.lookup(VirtualAddress(0x60_0000)), Slot::Page(0x9000_1000));
}

#[test]
fn second_overlapping_map_is_refused_and_keeps_the_first() {
    let mut f = frames(0x100_0000, 64);
    let mut t = IntermediateTable::new(0);
    assert_eq!(t.map_to(&mut f, VirtualAddress(0x40_0000), PhysicalAddress(0x8000_0000), 2 * 4096), Ok(()));
    let before = f.holes();
    assert_eq!(
        t.map_to(&mut f, VirtualAddress(0x40_1000), PhysicalAddress(0xA000_0000), 2 * 4096),
        Err(MapError::AlreadyMapped)
    );
    assert_eq!(t.lookup(VirtualAddress(0x40_1000)), Slot::Page(0x8000_1000));
    assert_eq!(t.lookup(VirtualAddress(0x40_2000)), Slot::Free);
    assert_eq!(f.holes(), before);
}

#[test]
fn map_unmap_map_succeeds() {
    let mut f = frames(0x100_0000, 64);
    let mut t = IntermediateTable::new(0);
    let virt = VirtualAddress(0x7000_0000);
    let phys = PhysicalAddress(0x4000_0000);
    assert_eq!(t.map_to(&mut f, virt, phys, 4 * 4096), Ok(()));
    t.unmap(virt, 4 * 4096);
    for k in 0..4 {
        assert_eq!(t.lookup(VirtualAddress(0x7000_0000 + k * 4096)), Slot::Free);
    }
    assert_eq!(t.map_to(&mut f, virt, phys, 4 * 4096), Ok(()));
    assert_eq!(t.lookup(VirtualAddress(0x7000_3000)), Slot::Page(0x4000_3000));
}

#[test]
fn unmap_leaves_pages_outside_the_range() {
    let mut f = frames(0x100_0000, 64);
    let mut t = IntermediateTable::new(0);
    assert_eq!(t.map_to(&mut f, VirtualAddress(0x40_0000), PhysicalAddress(0x8000_0000), 3 * 4096), Ok(()));
    t.unmap(VirtualAddress(0x40_1000), 4096);
    assert_eq!(t.lookup(VirtualAddress(0x40_0000)), Slot::Page(0x8000_0000));
    assert_eq!(t.lookup(VirtualAddress(0x40_1000)), Slot::Free);
    assert_eq!(t.lookup(VirtualAddress(0x40_2000)), Slot::Page(0x8000_2000));
}

#[test]
fn allocate_fills_the_range_from_two_holes() {
    // build the tables for the region first, from another allocator
    let mut spare = frames(0x100_0000, 64);
    let mut t = IntermediateTable::new(0);
    let virt = VirtualAddress(0x40_0000);
    assert_eq!(t.map_to(&mut spare, virt, PhysicalAddress(0x8000_0000), 4 * 4096), Ok(()));
    t.unmap(virt, 4 * 4096);

    // one hole of 1 frame, then one of 3
    let mut f = FrameAllocator::empty();
    f.insert_hole(PhysicalAddress(0x20_0000), 4096);
    f.insert_hole(PhysicalAddress(0x30_0000), 3 * 4096);
    assert_eq!(t.allocate(&mut f, virt, 4 * 4096), Ok(()));
    assert_eq!(t.lookup(VirtualAddress(0x40_0000)), Slot::Page(0x20_0000));
    assert_eq!(t.lookup(VirtualAddress(0x40_1000)), Slot::Page(0x30_0000));
    assert_eq!(t.lookup(VirtualAddress(0x40_2000)), Slot::Page(0x30_1000));
    assert_eq!(t.lookup(VirtualAddress(0x40_3000)), Slot::Page(0x30_2000));
    assert!(f.holes().is_empty());
}

#[test]
fn allocate_replaces_an_existing_mapping() {
    let mut f = frames(0x100_0000, 64);
    let mut t = IntermediateTable::new(0);
    let virt = VirtualAddress(0x40_0000);
    assert_eq!(t.map_to(&mut f, virt, PhysicalAddress(0x8000_0000), 4096), Ok(()));
    assert_eq!(t.allocate(&mut f, virt, 100), Ok(()));
    match t.lookup(virt) {
        Slot::Page(p) => assert!(p != 0x8000_0000),
        other => panic!("page not mapped: {:?}", other),
    }
}

#[test]
fn recursive_slot_is_fixed_and_refuses_mappings() {
    let mut f = frames(0x100_0000, 64);
    let mut t = IntermediateTable::new(0);
    assert_eq!(t.insert_raw(PhysicalAddress(0x5000), RECURSIVE_SLOT), Ok(()));
    assert_eq!(t.insert_raw(PhysicalAddress(0x5000), RECURSIVE_SLOT), Err(MapError::AlreadyMapped));
    let window = VirtualAddress(0x0000_FFFF_FFFF_F000);
    assert_eq!(t.lookup(window), Slot::Fixed);
    assert_eq!(t.map_to(&mut f, window, PhysicalAddress(0x9000_0000), 4096), Err(MapError::AlreadyMapped));
    assert_eq!(t.allocate(&mut f, window, 4096), Err(MapError::AlreadyMapped));
    assert_eq!(t.entry(RECURSIVE_SLOT).table_address(), Some(PhysicalAddress(0x5000)));
}

#[test]
fn blocks_only_below_level_zero() {
    let mut top = IntermediateTable::new(0);
    assert_eq!(top.insert_block(PhysicalAddress(0x4000_0000), 3), Err(MapError::AlreadyMapped));
    let mut l1 = IntermediateTable::new(1);
    assert_eq!(l1.insert_block(PhysicalAddress(0x4000_0000), 3), Ok(()));
    assert_eq!(l1.insert_block(PhysicalAddress(0x4000_0000), 3), Err(MapError::AlreadyMapped));
    let e = l1.entry(3);
    assert!(e.is_valid() && e.is_block() && !e.is_table());
    assert_eq!(e.block_address(0x0000_FFFF_C000_0000), Some(PhysicalAddress(0x4000_0000)));
    assert_eq!(e.table_address(), None);
}

#[test]
fn table_descriptor_encoding() {
    let e = IntermediateTableEntry::new(PhysicalAddress(0x1234_5000), true);
    assert!(e.is_valid() && e.is_table() && !e.is_block());
    assert_eq!(e.value() & 0b11, 0b11);
    assert_eq!(e.table_address(), Some(PhysicalAddress(0x1234_5000)));
    assert!(PageOrBlockDesc::get_owned(&e));
    let b = IntermediateTableEntry::new(PhysicalAddress(0x1234_5000), false);
    assert!(!PageOrBlockDesc::get_owned(&b));
    let n = IntermediateTableEntry::new_invalid();
    assert_eq!(n.value(), 0);
    assert!(!n.is_valid());
    let blk = IntermediateTableEntry::new_block(PhysicalAddress(0x4020_0000), 0x0000_FFFF_FFE0_0000);
    assert_eq!(blk.value() & 0b11, 0b01);
}

#[test]
fn table_attribute_bits() {
    let mut e = IntermediateTableEntry::new_invalid();
    e.set_ns(true);
    e.set_xn(true);
    assert_eq!(e.value(), (1 << 63) | (1 << 60));
    assert!(e.get_ns() && e.get_xn() && !e.get_pxn() && !e.get_read_only() && !e.get_el0_inaccessible());
    e.set_read_only(true);
    e.set_el0_inaccessible(true);
    e.set_pxn(true);
    e.set_ns(false);
    assert_eq!(e.value(), (1 << 62) | (1 << 61) | (1 << 60) | (1 << 59));
    assert!(e.get_read_only() && e.get_el0_inaccessible() && e.get_pxn() && !e.get_ns());
}

#[test]
fn page_descriptor_encoding_and_attributes() {
    let mut e = Level3TableEntry::new(PhysicalAddress(0xABC_D000));
    assert!(e.is_valid());
    assert_eq!(e.address(), 0xABC_D000);
    assert_eq!(e.get_address(), 0xABC_D000);
    assert!(e.get_access() && e.get_el0_accessible() && !e.get_read_only());
    e.set_xn(true);
    e.set_pxn(true);
    e.set_contiguous(true);
    e.set_dirty(true);
    e.set_guarded(true);
    e.set_owned(true);
    e.set_nt(true);
    e.set_not_global(true);
    e.set_read_only(true);
    e.set_non_secure(true);
    e.set_access(false);
    e.set_el0_accessible(false);
    assert!(e.get_xn() && e.get_pxn() && e.get_contiguous() && e.get_dirty() && e.get_guarded());
    assert!(e.get_owned() && e.get_nt() && e.get_not_global() && e.get_read_only() && e.get_non_secure());
    assert!(!e.get_access() && !e.get_el0_accessible());
    // bit 16 lies inside the output address field
    assert_eq!(e.get_address(), 0xABC_D000 | (1 << 16));
    let n = Level3TableEntry::new_invalid();
    assert!(!n.is_valid());
}

#[test]
fn level3_table_starts_empty() {
    let t = Level3Table::new();
    assert!(!t.entry(0).is_valid());
    assert_eq!(t.get_frame_addr(511), 0);
}

#[test]
fn mapping_nothing_succeeds_and_changes_nothing() {
    let mut f = frames(0x100_0000, 8);
    let mut t = IntermediateTable::new(0);
    let before = f.holes();
    assert_eq!(t.map_to(&mut f, VirtualAddress(0x40_0000), PhysicalAddress(0x8000_0000), 0), Ok(()));
    assert_eq!(t.lookup(VirtualAddress(0x40_0000)), Slot::Free);
    assert_eq!(f.holes(), before);
}

#[test]
fn inserted_tables_are_used_by_later_mappings() {
    let mut top = IntermediateTable::new(0);
    let l1 = IntermediateTable::new(1);
    assert_eq!(top.insert(NextTable::Table(Box::new(l1)), PhysicalAddress(0x7000), 0), Ok(()));
    assert_eq!(top.entry(0).table_address(), Some(PhysicalAddress(0x7000)));
    assert!(PageOrBlockDesc::get_owned(&top.entry(0)));
    let again = IntermediateTable::new(1);
    assert_eq!(top.insert(NextTable::Table(Box::new(again)), PhysicalAddress(0x8000), 0), Err(MapError::AlreadyMapped));
    let mut f = frames(0x100_0000, 8);
    assert_eq!(top.map_to(&mut f, VirtualAddress(0x40_0000), PhysicalAddress(0x8000_0000), 4096), Ok(()));
    assert_eq!(top.lookup(VirtualAddress(0x40_0000)), Slot::Page(0x8000_0000));
    // only the level-2 and level-3 tables were new
    assert_eq!(f.holes().iter().map(|h| h.size).sum::<usize>(), 6);
    let mut l2 = IntermediateTable::new(2);
    assert_eq!(l2.insert(NextTable::Leaf(Box::new(Level3Table::new())), PhysicalAddress(0x9000), 7), Ok(()));
    assert!(l2.entry(7).is_table());
}

#[test]
fn leaf_attributes_decode() {
    let mut e = Level3TableEntry::new(PhysicalAddress(0x5000));
    e.set_xn(true);
    e.set_read_only(true);
    let a = armkernel::table::debug_page_or_block(&e);
    assert_eq!(
        a,
        armkernel::table::LeafAttributes {
            xn: true,
            pxn: false,
            contiguous: false,
            dirty: false,
            guarded: false,
            address: 0x5000,
            not_global: false,
            access: true,
            read_only: true,
            el0_accessible: true,
            non_secure: false,
        }
    );
}

#[test]
fn unmap_clears_a_block_and_allocate_replaces_it() {
    let mut top = IntermediateTable::new(0);
    let mut l1 = IntermediateTable::new(1);
    assert_eq!(l1.insert_block(PhysicalAddress(0x4000_0000), 1), Ok(()));
    assert_eq!(l1.insert_block(PhysicalAddress(0x8000_0000), 2), Ok(()));
    assert_eq!(top.insert(NextTable::Table(Box::new(l1)), PhysicalAddress(0x7000), 0), Ok(()));
    assert_eq!(top.lookup(VirtualAddress(0x4000_0000)), Slot::Fixed);
    // a block only partly inside the range goes whole
    top.unmap(VirtualAddress(0x4000_0000), 4096);
    assert_eq!(top.lookup(VirtualAddress(0x4000_0000)), Slot::Free);
    assert_eq!(top.lookup(VirtualAddress(0x4000_1000)), Slot::Free);
    assert_eq!(top.lookup(VirtualAddress(0x8000_0000)), Slot::Fixed);
    // allocate unmaps the other block and maps the page
    let mut f = frames(0x100_0000, 16);
    assert_eq!(top.allocate(&mut f, VirtualAddress(0x8000_0000), 4096), Ok(()));
    assert!(matches!(top.lookup(VirtualAddress(0x8000_0000)), Slot::Page(_)));
    assert_eq!(top.lookup(VirtualAddress(0x8000_1000)), Slot::Free);
}

#[test]
fn unmap_keeps_the_self_mapping() {
    let mut t = IntermediateTable::new(0);
    assert_eq!(t.insert_raw(PhysicalAddress(0x5000), RECURSIVE_SLOT), Ok(()));
    let window = VirtualAddress(0x0000_FFFF_FFFF_F000);
    t.unmap(window, 4096);
    assert_eq!(t.lookup(window), Slot::Fixed);
    assert_eq!(t.entry(RECURSIVE_SLOT).table_address(), Some(PhysicalAddress(0x5000)));
}
