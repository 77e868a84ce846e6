use sv39_mapping::entry::{READABLE, VALID, WRITABLE};
use sv39_mapping::{
    Flags, FrameAllocator, MapType, Mapping, MemoryError, PageTableEntry, PhysicalPageNumber, Range,
    Segment, VirtualPageNumber,
};

fn allocator(start: u64, end: u64) -> FrameAllocator {
    FrameAllocator::new(PhysicalPageNumber(start), PhysicalPageNumber(end))
}

fn segment(map_type: MapType, start: u64, end: u64, flags: u8) -> Segment {
    Segment {
        map_type,
        page_range: Range { start: VirtualPageNumber(start), end: VirtualPageNumber(end) },
        flags: Flags(flags),
    }
}

#[test]
fn new_mapping_owns_only_its_root() {
    let mut alloc = allocator(0x80000, 0x80100);
    let m = Mapping::new(&mut alloc).unwrap();
    assert_eq!(m.table_count(), 1);
    assert_eq!(m.root_page_number(), PhysicalPageNumber(0x80000));
    assert!(m.lookup(VirtualPageNumber(0x1000)).is_empty());
}

#[test]
fn new_fails_without_frames() {
    let mut alloc = allocator(0x80000, 0x80000);
    assert!(matches!(Mapping::new(&mut alloc), Err(MemoryError::OutOfFrames)));
}

#[test]
fn satp_holds_root_and_sv39_mode() {
    let mut alloc = allocator(0x80000, 0x80100);
    let m = Mapping::new(&mut alloc).unwrap();
    assert_eq!(m.satp(), 0x80000 | (8u64 << 60));
}

#[test]
fn framed_segment_with_budget_two_of_three() {
    let mut alloc = allocator(0x80000, 0x80100);
    let mut m = Mapping::new(&mut alloc).unwrap();
    let seg = segment(MapType::Framed, 0x1000, 0x1003, READABLE | WRITABLE);
    let pairs = m.map(&mut alloc, &seg, 2, None).unwrap();
    assert_eq!(pairs.len(), 2);
    assert_eq!(pairs[0].0, VirtualPageNumber(0x1000));
    assert_eq!(pairs[1].0, VirtualPageNumber(0x1001));
    assert_eq!(pairs[0].1.page_number(), PhysicalPageNumber(0x80001));
    assert_eq!(pairs[1].1.page_number(), PhysicalPageNumber(0x80004));
    for (vpn, frame) in pairs.iter() {
        let e = m.lookup(*vpn);
        assert!(e.is_valid());
        assert_eq!(e.page_number(), frame.page_number());
        assert_eq!(e.flags(), Flags(VALID | READABLE | WRITABLE));
    }
    assert!(m.lookup(VirtualPageNumber(0x1002)).is_empty());
    assert_eq!(m.table_count(), 3);
}

#[test]
fn framed_budget_ceiling_maps_first_pages_only() {
    let mut alloc = allocator(0x80000, 0x80100);
    let mut m = Mapping::new(&mut alloc).unwrap();
    let seg = segment(MapType::Framed, 0x2000, 0x2005, READABLE);
    let pairs = m.map(&mut alloc, &seg, 3, None).unwrap();
    assert_eq!(pairs.len(), 3);
    for k in 0..5u64 {
        let e = m.lookup(VirtualPageNumber(0x2000 + k));
        if k < 3 {
            assert_eq!(pairs[k as usize].0, VirtualPageNumber(0x2000 + k));
            assert!(e.is_valid());
        } else {
            assert!(e.is_empty());
        }
    }
    assert_ne!(pairs[0].1.page_number(), pairs[1].1.page_number());
    assert_ne!(pairs[1].1.page_number(), pairs[2].1.page_number());
}

#[test]
fn framed_budget_above_size_maps_everything() {
    let mut alloc = allocator(0x80000, 0x80100);
    let mut m = Mapping::new(&mut alloc).unwrap();
    let seg = segment(MapType::Framed, 0x3000, 0x3004, READABLE);
    let pairs = m.map(&mut alloc, &seg, 10, None).unwrap();
    assert_eq!(pairs.len(), 4);
    for k in 0..4u64 {
        assert!(m.lookup(VirtualPageNumber(0x3000 + k)).is_valid());
    }
}

#[test]
fn linear_segment_maps_identity() {
    let mut alloc = allocator(0x80000, 0x80100);
    let mut m = Mapping::new(&mut alloc).unwrap();
    let seg = segment(MapType::Linear, 0x80200, 0x80210, READABLE | WRITABLE);
    let pairs = m.map(&mut alloc, &seg, 0, None).unwrap();
    assert!(pairs.is_empty());
    for v in 0x80200..0x80210u64 {
        let e = m.lookup(VirtualPageNumber(v));
        assert_eq!(e.page_number(), PhysicalPageNumber(v));
        assert_eq!(e.flags(), Flags(VALID | READABLE | WRITABLE));
    }
    assert!(m.lookup(VirtualPageNumber(0x80210)).is_empty());
    assert!(m.lookup(VirtualPageNumber(0x801ff)).is_empty());
}

#[test]
fn empty_segment_maps_nothing() {
    let mut alloc = allocator(0x80000, 0x80100);
    let mut m = Mapping::new(&mut alloc).unwrap();
    let seg = segment(MapType::Framed, 0x4000, 0x4000, READABLE);
    let pairs = m.map(&mut alloc, &seg, 5, None).unwrap();
    assert!(pairs.is_empty());
    assert_eq!(m.table_count(), 1);
}

#[test]
fn map_reports_exhaustion_and_keeps_earlier_pages() {
    // root, one frame and two nodes for the first page, then nothing left
    let mut alloc = allocator(0x80000, 0x80004);
    let mut m = Mapping::new(&mut alloc).unwrap();
    let seg = segment(MapType::Framed, 0x5000, 0x5002, READABLE);
    let r = m.map(&mut alloc, &seg, 2, None);
    assert!(matches!(r, Err(MemoryError::OutOfFrames)));
    assert!(m.lookup(VirtualPageNumber(0x5000)).is_valid());
    assert!(m.lookup(VirtualPageNumber(0x5001)).is_empty());
}

#[test]
fn swap_out_then_in_restores_entry() {
    let mut alloc = allocator(0x80000, 0x80100);
    let mut m = Mapping::new(&mut alloc).unwrap();
    let seg = segment(MapType::Framed, 0x1000, 0x1002, READABLE | WRITABLE);
    m.map(&mut alloc, &seg, 2, None).unwrap();
    let vpn = VirtualPageNumber(0x1001);
    let e = m.lookup(vpn);
    assert!(e.is_valid());
    let tables = m.table_count();
    m.swap_out(&mut alloc, vpn).unwrap();
    assert!(m.lookup(vpn).is_empty());
    assert_eq!(m.lookup(vpn).bits, 0);
    assert!(m.lookup(VirtualPageNumber(0x1000)).is_valid());
    m.swap_in(&mut alloc, vpn, e.page_number(), e.flags()).unwrap();
    assert_eq!(m.lookup(vpn), e);
    assert_eq!(m.table_count(), tables);
}

#[test]
fn swap_in_on_unmapped_page_creates_nodes() {
    let mut alloc = allocator(0x80000, 0x80100);
    let mut m = Mapping::new(&mut alloc).unwrap();
    let vpn = VirtualPageNumber(0x1002);
    m.swap_in(&mut alloc, vpn, PhysicalPageNumber(0x90000), Flags(READABLE)).unwrap();
    let e = m.lookup(vpn);
    assert_eq!(e.page_number(), PhysicalPageNumber(0x90000));
    assert_eq!(e.flags(), Flags(VALID | READABLE));
    assert_eq!(m.table_count(), 3);
}

#[test]
fn never_mapped_page_is_not_valid_for_swap_out() {
    let mut alloc = allocator(0x80000, 0x80100);
    let m = Mapping::new(&mut alloc).unwrap();
    let e = m.lookup(VirtualPageNumber(0x1234));
    assert!(!e.is_valid());
    assert!(e.is_empty());
}

#[test]
fn find_entry_twice_creates_nodes_once() {
    let mut alloc = allocator(0x80000, 0x80100);
    let mut m = Mapping::new(&mut alloc).unwrap();
    let vpn = VirtualPageNumber(0x7654321);
    let p1 = m.find_entry(&mut alloc, vpn).unwrap();
    assert_eq!(m.table_count(), 3);
    let p2 = m.find_entry(&mut alloc, vpn).unwrap();
    assert_eq!(p1, p2);
    assert_eq!(m.table_count(), 3);
    assert_eq!(p1, 512 * 2 + 289);
    assert!(m.entry_at(p1).is_empty());
    // the next frame handed out is the first not taken by the walk
    assert_eq!(alloc.allocate().unwrap().page_number(), PhysicalPageNumber(0x80003));
}

#[test]
fn neighbouring_pages_share_nodes() {
    let mut alloc = allocator(0x80000, 0x80100);
    let mut m = Mapping::new(&mut alloc).unwrap();
    m.find_entry(&mut alloc, VirtualPageNumber(0x1000)).unwrap();
    m.find_entry(&mut alloc, VirtualPageNumber(0x1001)).unwrap();
    assert_eq!(m.table_count(), 3);
    m.find_entry(&mut alloc, VirtualPageNumber(0x1000 + 512)).unwrap();
    assert_eq!(m.table_count(), 4);
    m.find_entry(&mut alloc, VirtualPageNumber(0x1000 + (1 << 18))).unwrap();
    assert_eq!(m.table_count(), 6);
}

#[test]
fn find_entry_fails_when_nodes_cannot_be_allocated() {
    let mut alloc = allocator(0x80000, 0x80002);
    let mut m = Mapping::new(&mut alloc).unwrap();
    let r = m.find_entry(&mut alloc, VirtualPageNumber(0x1000));
    assert!(matches!(r, Err(MemoryError::OutOfFrames)));
    assert!(m.lookup(VirtualPageNumber(0x1000)).is_empty());
}

#[test]
fn map_one_populates_once_and_leaves_others() {
    let mut alloc = allocator(0x80000, 0x80100);
    let mut m = Mapping::new(&mut alloc).unwrap();
    let a = VirtualPageNumber(0x1000);
    let b = VirtualPageNumber(0x1001);
    m.map_one(&mut alloc, a, PhysicalPageNumber(0x90000), Flags(READABLE)).unwrap();
    let ea = m.lookup(a);
    assert!(ea.is_valid());
    assert!(!ea.is_empty());
    m.map_one(&mut alloc, b, PhysicalPageNumber(0x90001), Flags(VALID | WRITABLE)).unwrap();
    assert_eq!(m.lookup(a), ea);
    assert_eq!(m.lookup(b).page_number(), PhysicalPageNumber(0x90001));
    assert_eq!(m.lookup(b).flags(), Flags(VALID | WRITABLE));
}

#[test]
fn pages_equal_modulo_span_share_translation() {
    let mut alloc = allocator(0x80000, 0x80100);
    let mut m = Mapping::new(&mut alloc).unwrap();
    m.map_one(&mut alloc, VirtualPageNumber(0x1000), PhysicalPageNumber(0x90000), Flags(READABLE)).unwrap();
    let alias = VirtualPageNumber(0x1000 + (1u64 << 27));
    assert_eq!(m.lookup(alias), m.lookup(VirtualPageNumber(0x1000)));
}

#[test]
fn entry_layout_matches_sv39() {
    let e = PageTableEntry::new(PhysicalPageNumber(0x12345), Flags(0b111));
    assert_eq!(e.bits, 0x48d1407);
    assert_eq!(e.page_number(), PhysicalPageNumber(0x12345));
    assert_eq!(e.flags(), Flags(0b111));
    assert!(e.is_valid());
    assert!(!e.is_empty());
    let f = PageTableEntry::new(PhysicalPageNumber(0x12345), Flags(READABLE));
    assert!(!f.is_valid());
    assert!(!f.is_empty());
    assert!(PageTableEntry::empty().is_empty());
    assert!(PageTableEntry::new(PhysicalPageNumber(0), Flags(READABLE)).is_empty());
    assert!(!PageTableEntry::new(PhysicalPageNumber(0), Flags(VALID)).is_empty());
}

#[test]
fn flags_valid_adds_only_the_valid_bit() {
    assert_eq!(Flags(READABLE).valid(), Flags(VALID | READABLE));
    assert_eq!(Flags(VALID | WRITABLE).valid(), Flags(VALID | WRITABLE));
    assert!(Flags(VALID).is_valid());
    assert!(!Flags(READABLE).is_valid());
}

#[test]
fn levels_split_the_page_number() {
    assert_eq!(VirtualPageNumber(0x12345).levels(), (0, 145, 325));
    assert_eq!(VirtualPageNumber(0x7654321).levels(), (473, 161, 289));
    assert_eq!(VirtualPageNumber(0xfffff_fff8_0200).levels(), VirtualPageNumber(0x7f80200).levels());
}

#[test]
fn allocator_hands_out_in_order_and_recycles() {
    let mut alloc = allocator(10, 13);
    let a = alloc.allocate().unwrap();
    let b = alloc.allocate().unwrap();
    assert_eq!(a.page_number(), PhysicalPageNumber(10));
    assert_eq!(b.page_number(), PhysicalPageNumber(11));
    alloc.deallocate(a);
    assert_eq!(alloc.allocate().unwrap().page_number(), PhysicalPageNumber(10));
    assert_eq!(alloc.allocate().unwrap().page_number(), PhysicalPageNumber(12));
    assert!(matches!(alloc.allocate(), Err(MemoryError::OutOfFrames)));
}

#[test]
fn release_returns_every_node_frame() {
    let mut alloc = allocator(0x80000, 0x80003);
    let mut m = Mapping::new(&mut alloc).unwrap();
    m.find_entry(&mut alloc, VirtualPageNumber(0x1000)).unwrap();
    assert!(matches!(alloc.allocate(), Err(MemoryError::OutOfFrames)));
    m.release(&mut alloc);
    assert_eq!(alloc.allocate().unwrap().page_number(), PhysicalPageNumber(0x80000));
    assert_eq!(alloc.allocate().unwrap().page_number(), PhysicalPageNumber(0x80001));
    assert_eq!(alloc.allocate().unwrap().page_number(), PhysicalPageNumber(0x80002));
    assert!(matches!(alloc.allocate(), Err(MemoryError::OutOfFrames)));
}
