use ucore::active_table::ActiveTable;
use ucore::cow::FaultHandler;
use ucore::memory_set::{MemError, MemoryArea, MemoryAttr, MemorySet};
use ucore::phys::PhysMemory;
use ucore::stack::{Stack, STACK_SIZE};

fn rw() -> MemoryAttr {
    MemoryAttr { user: true, readonly: false, execute: false, cow: false, lazy: false }
}

fn ro() -> MemoryAttr {
    MemoryAttr { user: true, readonly: true, execute: false, cow: false, lazy: false }
}

fn area(start: usize, end: usize, attr: MemoryAttr) -> MemoryArea {
    MemoryArea { start_addr: start, end_addr: end, attr }
}

#[test]
fn end_to_end_single_area() {
    let mut mem = PhysMemory::new(4);
    let mut s = MemorySet::new();
    assert_eq!(s.push(area(0x1000, 0x2000, rw()), &mut mem), Ok(()));
    assert!(s.is_writable(0x1000, 0x1800));
    assert!(!s.is_writable(0x1000, 0x3000));
    let before = mem.free_count();
    assert_eq!(before, 3);
    s.destroy(&mut mem);
    assert_eq!(mem.free_count(), before + 1);
}

#[test]
fn overlapping_area_rejected() {
    let mut mem = PhysMemory::new(8);
    let mut s = MemorySet::new();
    assert_eq!(s.push(area(0x1000, 0x3000, rw()), &mut mem), Ok(()));
    assert_eq!(s.push(area(0x2000, 0x4000, rw()), &mut mem), Err(MemError::Overlap));
    assert_eq!(s.push(area(0x0, 0x2000, ro()), &mut mem), Err(MemError::Overlap));
    assert_eq!(mem.free_count(), 6);
    assert_eq!(s.push(area(0x3000, 0x4000, rw()), &mut mem), Ok(()));
    assert_eq!(s.push(area(0x0, 0x1000, ro()), &mut mem), Ok(()));
    assert_eq!(mem.free_count(), 4);
}

#[test]
fn invalid_and_exhausted_areas_rejected() {
    let mut mem = PhysMemory::new(2);
    let mut s = MemorySet::new();
    assert_eq!(s.push(area(0x2000, 0x2000, rw()), &mut mem), Err(MemError::InvalidArea));
    assert_eq!(s.push(area(0x3000, 0x2000, rw()), &mut mem), Err(MemError::InvalidArea));
    assert_eq!(s.push(area(0x0, 0x3000, rw()), &mut mem), Err(MemError::ResourceExhausted));
    assert_eq!(mem.free_count(), 2);
    assert_eq!(s.push(area(0x0, 0x2000, rw()), &mut mem), Ok(()));
    assert_eq!(mem.free_count(), 0);
}

#[test]
fn unaligned_areas_back_every_page_they_touch() {
    let mut mem = PhysMemory::new(4);
    let mut s = MemorySet::new();
    assert_eq!(s.push(area(0x1001, 0x2000, rw()), &mut mem), Ok(()));
    assert_eq!(mem.free_count(), 3);
    assert_eq!(s.push(area(0x2800, 0x3001, ro()), &mut mem), Ok(()));
    assert_eq!(mem.free_count(), 1);
    assert_eq!(s.translate(0x2000), Some(1));
    assert_eq!(s.translate(0x3000), Some(2));
    assert_eq!(s.push(area(0x1800, 0x1900, rw()), &mut mem), Err(MemError::Overlap));
    assert_eq!(s.push(area(0x1000, 0x1001, rw()), &mut mem), Ok(()));
    assert_eq!(s.push(area(0x3800, 0x3900, rw()), &mut mem), Ok(()));
    assert_eq!(mem.free_count(), 1);
    assert_eq!(s.translate(0x1000), Some(0));
    assert!(s.is_writable(0x1000, 0x2000));
    assert!(!s.is_readable(0x2000, 0x2801));
    assert!(s.is_readable(0x2800, 0x3001));
    assert!(!s.is_readable(0x3001, 0x3800));
    assert_eq!(s.push(area(0x5fff, 0x6000, rw()), &mut mem), Ok(()));
    assert_eq!(mem.free_count(), 0);
}

#[test]
fn byte_disjoint_areas_share_an_edge_page() {
    let mut mem = PhysMemory::new(2);
    let mut s = MemorySet::new();
    let lazy = MemoryAttr { user: true, readonly: false, execute: false, cow: false, lazy: true };
    assert_eq!(s.push(area(0x1000, 0x1800, lazy), &mut mem), Ok(()));
    assert_eq!(s.push(area(0x1800, 0x2000, lazy), &mut mem), Ok(()));
    assert_eq!(s.push(area(0x3000, 0x3800, rw()), &mut mem), Ok(()));
    assert_eq!(s.push(area(0x3800, 0x4000, rw()), &mut mem), Ok(()));
    assert_eq!(mem.free_count(), 1);
    assert_eq!(s.remove_area(0x3000, &mut mem), Ok(()));
    assert_eq!(mem.free_count(), 1);
    assert_eq!(s.translate(0x3800), Some(0));
    assert_eq!(s.remove_area(0x3800, &mut mem), Ok(()));
    assert_eq!(mem.free_count(), 2);
    assert_eq!(s.translate(0x3800), None);
}

#[test]
fn permission_checks_cover_every_byte() {
    let mut mem = PhysMemory::new(8);
    let mut s = MemorySet::new();
    s.push(area(0x1000, 0x2000, rw()), &mut mem).unwrap();
    s.push(area(0x2000, 0x3000, rw()), &mut mem).unwrap();
    s.push(area(0x3000, 0x4000, ro()), &mut mem).unwrap();
    assert!(s.is_writable(0x1800, 0x2800));
    assert!(!s.is_writable(0x2800, 0x3001));
    assert!(s.is_readable(0x1000, 0x4000));
    assert!(!s.is_readable(0x1000, 0x4001));
    assert!(!s.is_readable(0xfff, 0x1001));
    assert!(s.is_writable(0x5000, 0x5000));
    assert!(s.check_array(0x3000, 0x1000));
    assert!(!s.check_mut_array(0x3000, 0x10));
    assert!(!s.check_array(usize::MAX, 2));
}

#[test]
fn pages_are_backed_and_cleared() {
    let mut mem = PhysMemory::new(4);
    mem.map_new_frame().unwrap();
    let mut s = MemorySet::new();
    s.push(area(0x4000, 0x6000, rw()), &mut mem).unwrap();
    assert_eq!(s.translate(0x4123), Some(1));
    assert_eq!(s.translate(0x5fff), Some(2));
    assert_eq!(s.translate(0x6000), None);
    assert_eq!(s.find_area(0x5000), Some(0));
    assert_eq!(s.find_area(0x6000), None);
    assert_eq!(s.read_byte(&mem, 0x4010), Some(0));
    assert_eq!(s.write_byte(&mut mem, 0x4010, 7), Ok(()));
    assert_eq!(s.read_byte(&mem, 0x4010), Some(7));
    assert_eq!(mem.read(1, 0x10), 7);
    assert_eq!(s.read_byte(&mem, 0x7000), None);
}

#[test]
fn cow_fault_copies_and_keeps_spaces_apart() {
    let mut mem = PhysMemory::new(4);
    let mut a = MemorySet::new();
    a.push(area(0x1000, 0x2000, rw()), &mut mem).unwrap();
    a.write_byte(&mut mem, 0x1004, 42).unwrap();
    let mut b = a.clone_cow(&mut mem);
    assert_eq!(mem.ref_count(0), 2);
    assert_eq!(a.translate(0x1000), Some(0));
    assert_eq!(b.translate(0x1000), Some(0));
    assert_eq!(a.write_byte(&mut mem, 0x1004, 1), Err(MemError::InvalidAccess));
    assert_eq!(mem.free_count(), 3);

    let handler = FaultHandler::CowCapable;
    assert_eq!(handler.page_fault_handler(&mut a, &mut mem, 0x1004), Ok(()));
    assert_eq!(mem.free_count(), 2);
    assert_eq!(a.translate(0x1000), Some(1));
    assert_eq!(b.translate(0x1000), Some(0));
    assert_eq!(mem.ref_count(0), 1);
    assert_eq!(mem.ref_count(1), 1);
    assert_eq!(a.read_byte(&mem, 0x1004), Some(42));

    a.write_byte(&mut mem, 0x1004, 99).unwrap();
    assert_eq!(a.read_byte(&mem, 0x1004), Some(99));
    assert_eq!(b.read_byte(&mem, 0x1004), Some(42));

    assert_eq!(handler.page_fault_handler(&mut b, &mut mem, 0x1004), Ok(()));
    assert_eq!(mem.free_count(), 2);
    assert_eq!(b.translate(0x1000), Some(2));
    assert_eq!(a.translate(0x1000), Some(1));
    assert_eq!(mem.ref_count(0), 0);
    assert_eq!(b.read_byte(&mem, 0x1004), Some(42));
    b.write_byte(&mut mem, 0x1004, 5).unwrap();
    assert_eq!(a.read_byte(&mem, 0x1004), Some(99));
    assert_eq!(b.read_byte(&mem, 0x1004), Some(5));

    a.destroy(&mut mem);
    assert_eq!(mem.free_count(), 3);
    b.destroy(&mut mem);
    assert_eq!(mem.free_count(), 4);
}

#[test]
fn shared_frame_freed_only_with_last_space() {
    let mut mem = PhysMemory::new(2);
    let mut a = MemorySet::new();
    a.push(area(0x1000, 0x2000, rw()), &mut mem).unwrap();
    let b = a.clone_cow(&mut mem);
    a.destroy(&mut mem);
    assert_eq!(mem.free_count(), 1);
    assert_eq!(mem.ref_count(0), 1);
    b.destroy(&mut mem);
    assert_eq!(mem.free_count(), 2);
}

#[test]
fn cow_fault_without_free_frame_is_exhausted() {
    let mut mem = PhysMemory::new(1);
    let mut a = MemorySet::new();
    a.push(area(0x1000, 0x2000, rw()), &mut mem).unwrap();
    let _b = a.clone_cow(&mut mem);
    let handler = FaultHandler::CowCapable;
    assert_eq!(handler.page_fault_handler(&mut a, &mut mem, 0x1000), Err(MemError::ResourceExhausted));
    assert_eq!(a.translate(0x1000), Some(0));
}

#[test]
fn fault_outside_cow_area_is_fatal() {
    let mut mem = PhysMemory::new(4);
    let mut a = MemorySet::new();
    a.push(area(0x1000, 0x2000, rw()), &mut mem).unwrap();
    let handler = FaultHandler::CowCapable;
    assert_eq!(handler.page_fault_handler(&mut a, &mut mem, 0x1000), Err(MemError::InvalidAccess));
    assert_eq!(handler.page_fault_handler(&mut a, &mut mem, 0x9000), Err(MemError::InvalidAccess));
    let mut b = a.clone_cow(&mut mem);
    assert_eq!(FaultHandler::NoCow.page_fault_handler(&mut b, &mut mem, 0x1000), Err(MemError::InvalidAccess));
    assert_eq!(b.write_byte(&mut mem, 0x1000, 1), Err(MemError::InvalidAccess));
}

#[test]
fn stack_bounds() {
    let s = Stack::from_bottom(0x10000);
    assert_eq!(s.bottom, 0x10000);
    assert_eq!(s.top, 0x18000);
    assert_eq!(STACK_SIZE, 0x8000);
    assert!(s.contains(0x17fff));
    assert!(!s.contains(0x18000));
}

#[test]
fn active_table_switch() {
    let mut t = ActiveTable::new(0x1000);
    assert!(t.is_active(0x1000));
    assert_eq!(t.switch(0x2000), 0x1000);
    assert_eq!(t.token(), 0x2000);
    assert!(!t.is_active(0x1000));
}

#[test]
fn remove_area_releases_its_frames() {
    let mut mem = PhysMemory::new(4);
    let mut s = MemorySet::new();
    s.push(area(0x1000, 0x3000, rw()), &mut mem).unwrap();
    s.push(area(0x8000, 0x9000, ro()), &mut mem).unwrap();
    assert_eq!(mem.free_count(), 1);
    assert_eq!(s.remove_area(0x2000, &mut mem), Err(MemError::InvalidArea));
    assert_eq!(mem.free_count(), 1);
    assert_eq!(s.remove_area(0x1000, &mut mem), Ok(()));
    assert_eq!(mem.free_count(), 3);
    assert_eq!(s.translate(0x1000), None);
    assert_eq!(s.translate(0x8000), Some(2));
    assert!(!s.is_readable(0x1000, 0x1001));
    assert!(s.is_readable(0x8000, 0x9000));
    assert_eq!(s.push(area(0x0, 0x4000, rw()), &mut mem), Err(MemError::ResourceExhausted));
    assert_eq!(s.push(area(0x1000, 0x3000, rw()), &mut mem), Ok(()));
}

#[test]
fn remove_shared_area_keeps_frame_for_other_space() {
    let mut mem = PhysMemory::new(2);
    let mut a = MemorySet::new();
    a.push(area(0x1000, 0x2000, rw()), &mut mem).unwrap();
    let b = a.clone_cow(&mut mem);
    assert_eq!(a.remove_area(0x1000, &mut mem), Ok(()));
    assert_eq!(mem.free_count(), 1);
    assert_eq!(mem.ref_count(0), 1);
    assert_eq!(b.translate(0x1000), Some(0));
}

#[test]
fn clone_user_string() {
    let mut mem = PhysMemory::new(4);
    let mut s = MemorySet::new();
    s.push(area(0x1000, 0x2000, rw()), &mut mem).unwrap();
    for (i, b) in b"open".iter().enumerate() {
        s.write_byte(&mut mem, 0x1ffa + i, *b).unwrap();
    }
    assert_eq!(s.check_and_clone_cstr(&mem, 0x1ffa), Some(b"open".to_vec()));
    assert_eq!(s.check_and_clone_cstr(&mem, 0x1ffe), Some(Vec::new()));
    s.write_byte(&mut mem, 0x1ffe, b'!').unwrap();
    s.write_byte(&mut mem, 0x1fff, b'?').unwrap();
    assert_eq!(s.check_and_clone_cstr(&mem, 0x1ffa), None);
    assert_eq!(s.check_and_clone_cstr(&mem, 0x3000), None);
}

#[test]
fn lazy_area_backed_on_first_access() {
    let mut mem = PhysMemory::new(2);
    let mut s = MemorySet::new();
    let lazy = MemoryAttr { user: true, readonly: false, execute: false, cow: false, lazy: true };
    assert_eq!(s.push(area(0x1000, 0x4000, lazy), &mut mem), Ok(()));
    assert_eq!(mem.free_count(), 2);
    assert_eq!(s.translate(0x2000), None);
    assert!(s.is_writable(0x1000, 0x4000));
    assert_eq!(s.map_lazy_page(&mut mem, 0x2345), Ok(()));
    assert_eq!(s.translate(0x2000), Some(0));
    assert_eq!(s.read_byte(&mem, 0x2345), Some(0));
    assert_eq!(s.write_byte(&mut mem, 0x2345, 3), Ok(()));
    assert_eq!(s.map_lazy_page(&mut mem, 0x2000), Err(MemError::InvalidAccess));
    assert_eq!(s.map_lazy_page(&mut mem, 0x5000), Err(MemError::InvalidAccess));
    assert_eq!(s.map_lazy_page(&mut mem, 0x1000), Ok(()));
    assert_eq!(s.map_lazy_page(&mut mem, 0x3000), Err(MemError::ResourceExhausted));
    assert_eq!(mem.free_count(), 0);
    s.destroy(&mut mem);
    assert_eq!(mem.free_count(), 2);
}

#[test]
fn eager_area_cannot_be_mapped_lazily() {
    let mut mem = PhysMemory::new(2);
    let mut s = MemorySet::new();
    s.push(area(0x1000, 0x2000, rw()), &mut mem).unwrap();
    assert_eq!(s.map_lazy_page(&mut mem, 0x1000), Err(MemError::InvalidAccess));
}
