use slice_deque::allocator::{
    allocate_mirrored, allocation_granularity, deallocate_mirrored, release, AllocError, Cache,
};
use slice_deque::bytes::Bytes;
use slice_deque::macros::TinyAsciiString;
use slice_deque::policy::{next_step, MapAction, MapEvent, MAX_NO_ALLOC_ITERS};

#[test]
fn granularity_is_a_page() {
    assert_eq!(allocation_granularity(), 4096);
}

#[test]
fn cache_starts_empty() {
    let mut c = Cache::new();
    assert_eq!(c.pop(2 * allocation_granularity()), None);
    assert_eq!(c.pop(8 * allocation_granularity()), None);
}

#[test]
fn cache_pops_what_was_pushed_newest_first() {
    let mut c = Cache::new();
    let small = 2 * allocation_granularity();
    assert!(c.push(0x1000, small));
    assert!(c.push(0x9000, small));
    assert_eq!(c.pop(small), Some(0x9000));
    assert_eq!(c.pop(small), Some(0x1000));
    assert_eq!(c.pop(small), None);
}

#[test]
fn cache_keys_by_exact_size() {
    let mut c = Cache::new();
    let a = 4 * allocation_granularity();
    let b = 6 * allocation_granularity();
    assert!(c.push(0x1000, a));
    assert!(c.push(0x5000, b));
    assert_eq!(c.pop(b), Some(0x5000));
    assert_eq!(c.pop(b), None);
    assert_eq!(c.pop(a), Some(0x1000));
    assert_eq!(c.pop(a), None);
}

#[test]
fn allocate_serves_cache_then_misses() {
    let mut c = Cache::new();
    let size = 4 * allocation_granularity();
    assert_eq!(allocate_mirrored(&mut c, size), None);
    deallocate_mirrored(&mut c, 0x4000, size);
    assert_eq!(allocate_mirrored(&mut c, size), Some(0x4000));
    assert_eq!(allocate_mirrored(&mut c, size), None);
}

#[test]
fn release_hands_everything_back_and_empties() {
    let mut c = Cache::new();
    let small = 2 * allocation_granularity();
    let big = 4 * allocation_granularity();
    deallocate_mirrored(&mut c, 0x1000, small);
    deallocate_mirrored(&mut c, 0x3000, big);
    deallocate_mirrored(&mut c, 0x7000, big);
    let out = release(&mut c);
    assert_eq!(out.len(), 3);
    let mut smalls: Vec<usize> = Vec::new();
    let mut bigs: Vec<usize> = Vec::new();
    for b in &out {
        if b.size() == small {
            smalls.push(b.addr());
        } else {
            assert_eq!(b.size(), big);
            bigs.push(b.addr());
        }
    }
    assert_eq!(smalls, vec![0x1000]);
    assert_eq!(bigs, vec![0x3000, 0x7000]);
    assert_eq!(c.pop(small), None);
    assert_eq!(c.pop(big), None);
}

#[test]
fn bytes_records_the_pair() {
    let b = Bytes::new(0x2000, 8192);
    assert_eq!(b.addr(), 0x2000);
    assert_eq!(b.size(), 8192);
}

#[test]
fn mirrored_success_is_done() {
    assert_eq!(next_step(0, MapEvent::Mirrored), MapAction::Done);
    assert_eq!(next_step(MAX_NO_ALLOC_ITERS, MapEvent::Mirrored), MapAction::Done);
}

#[test]
fn os_refusal_is_allocation_failure() {
    assert_eq!(
        next_step(0, MapEvent::OsRefused),
        MapAction::Fail(AllocError::AllocationFailure)
    );
}

#[test]
fn lost_race_retries_until_the_bound() {
    for i in 0..MAX_NO_ALLOC_ITERS {
        assert_eq!(next_step(i, MapEvent::RaceLost), MapAction::Retry);
    }
    assert_eq!(
        next_step(MAX_NO_ALLOC_ITERS, MapEvent::RaceLost),
        MapAction::Fail(AllocError::MirrorRaceExhausted)
    );
}

#[test]
fn tiny_string_starts_zeroed() {
    let s = TinyAsciiString::new();
    for i in 0..512 {
        assert_eq!(s.get(i), 0);
    }
}

#[test]
fn tiny_string_writes_at_the_start() {
    let mut s = TinyAsciiString::new();
    assert!(s.write_bytes(b"oom").is_ok());
    assert_eq!(s.get(0), b'o');
    assert_eq!(s.get(1), b'o');
    assert_eq!(s.get(2), b'm');
    assert_eq!(s.get(3), 0);
    let long = [b'x'; 513];
    assert!(s.write_bytes(&long).is_err());
    assert_eq!(s.get(0), b'o');
}
