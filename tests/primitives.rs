use glr::mem::{MemoryRange, Page, PoolAllocator, HUGE_PAGE_SIZE};
use glr::opcodes::TypeSize;
use glr::reader::Reader;

#[test]
fn type_size_from_selector() {
    assert_eq!(TypeSize::from(0), Some(TypeSize::U8));
    assert_eq!(TypeSize::from(3), Some(TypeSize::U64));
    assert_eq!(TypeSize::from(7), Some(TypeSize::F64));
    assert_eq!(TypeSize::from(8), None);
}

#[test]
fn type_size_extract_splits_tag() {
    assert_eq!(TypeSize::extract(0x01), (Some(TypeSize::U8), 1));
    assert_eq!(TypeSize::extract(0x83), (Some(TypeSize::I32), 3));
    assert_eq!(TypeSize::extract(0xFF), (Some(TypeSize::F64), 7));
}

#[test]
fn reader_reads_little_endian() {
    let bytes = [0x01u8, 0x02, 0x03, 0x04, 0xFF, 0xFF, 0xFF, 0xFF, 0x05];
    let mut r = Reader::from(&bytes[..]);
    assert_eq!(r.read_u16(), Some(0x0201));
    assert_eq!(r.read_u16(), Some(0x0403));
    assert_eq!(r.read_i32(), Some(-1));
    assert_eq!(r.read_u8(), Some(5));
    assert_eq!(r.read_u8(), None);
    assert_eq!(r.pos(), 9);
}

#[test]
fn reader_wide_reads() {
    let bytes = [0x88u8, 0x77, 0x66, 0x55, 0x44, 0x33, 0x22, 0x11];
    let mut r = Reader::from(&bytes[..]);
    assert_eq!(r.read_u64(), Some(0x1122334455667788));
    let mut r = Reader::from(&bytes[..]);
    assert_eq!(r.read_u32(), Some(0x55667788));
    let neg = [0u8, 0, 0, 0, 0, 0, 0, 0x80];
    let mut r = Reader::from(&neg[..]);
    assert_eq!(r.read_i64(), Some(i64::MIN));
}

#[test]
fn reader_exhausted_does_not_move() {
    let bytes = [1u8, 2, 3];
    let mut r = Reader::from(&bytes[..]);
    assert_eq!(r.read_u32(), None);
    assert_eq!(r.pos(), 0);
    assert_eq!(r.read_bytes(4), None);
    assert_eq!(r.read_bytes(2), Some(&bytes[..2]));
    assert_eq!(r.remaining(), 1);
    assert_eq!(r.read_bytes(0), Some(&bytes[2..2]));
}

#[test]
fn arena_bumps_and_commits_by_page() {
    let mut m = MemoryRange::at(1 << 20, 4096).unwrap();
    assert_eq!(m.as_ptr(), 1 << 20);
    assert_eq!(m.len(), 1 << 20);
    assert_eq!(m.committed_len(), 4096);
    assert_eq!(m.alloc_bytes(100), Some((1 << 20) + 0));
    assert_eq!(m.alloc_bytes(5000), Some((1 << 20) + 100));
    assert_eq!(m.taken(), 5100);
    assert_eq!(m.committed_len(), 8192);
    assert_eq!(m.alloc_many::<u64>(3), Some((1 << 20) + 5100));
    assert_eq!(m.taken(), 5124);
}

#[test]
fn arena_refuses_past_reservation() {
    let mut m = MemoryRange::at(10000, 4096).unwrap();
    assert_eq!(m.alloc_bytes(9000), Some(10000));
    assert_eq!(m.committed_len(), 10000);
    assert_eq!(m.alloc_bytes(1001), None);
    assert_eq!(m.taken(), 9000);
    assert_eq!(m.alloc_bytes(1000), Some(19000));
    assert_eq!(m.alloc_many::<u32>(usize::MAX), None);
}

#[test]
fn arena_reservations() {
    assert!(MemoryRange::at(0, 4096).is_none());
    assert!(MemoryRange::at(usize::MAX, 4096).is_none());
    assert!(MemoryRange::at(4096, 0).is_none());
    let code = MemoryRange::at_exec(1 << 32, 4096).unwrap();
    assert_eq!(code.page_size(), 4096);
    assert_eq!(MemoryRange::huge_page_size(), HUGE_PAGE_SIZE);
}

#[test]
fn page_pointers() {
    let p = Page { addr: 0x1000, size: 0x100 };
    assert_eq!(p.len(), 0x100);
    assert_eq!(p.ptr(0), Some(0x1000));
    assert_eq!(p.ptr(0xFF), Some(0x10FF));
    assert_eq!(p.ptr(0x100), None);
    let high = Page { addr: usize::MAX, size: 10 };
    assert_eq!(high.ptr(1), None);
}

#[test]
fn pool_allocator_hands_out_offsets() {
    let mut pool = PoolAllocator::alloc_at(1 << 14).unwrap();
    assert_eq!(pool.len(), 1 << 14);
    assert_eq!(pool.alloc_bytes(10), Some(0));
    assert_eq!(pool.alloc_bytes(20), Some(10));
    assert_eq!(pool.taken_bytes().len(), 30);
    assert_eq!(pool.as_bytes().len(), 1 << 14);
    assert_eq!(pool.alloc_bytes((1 << 14) - 30), None);
    assert_eq!(pool.alloc_bytes((1 << 14) - 31), Some(30));
    assert!(PoolAllocator::new(10, 10).is_none());
    assert!(PoolAllocator::alloc_at(usize::MAX).is_none());
}
