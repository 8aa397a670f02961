use rcmalloc::alloc_core::AllocError;
use rcmalloc::{align_up, ReallyCoolAllocator, ARENA_SIZE, MAX_SUPPORTED_ALIGN, SENTINEL_BYTE};

#[test]
fn align_up_values() {
    assert_eq!(align_up(0, 1), 0);
    assert_eq!(align_up(0, 4096), 0);
    assert_eq!(align_up(5, 8), 8);
    assert_eq!(align_up(8, 8), 8);
    assert_eq!(align_up(4095, 4096), 4096);
    assert_eq!(align_up(4096, 4096), 4096);
    assert_eq!(align_up(7, 3), 9);
}

#[test]
fn align_up_boundary_values() {
    // The machine-limit bound is addr + align - 1 <= usize::MAX: the
    // top of the address space is still served.
    assert_eq!(align_up(usize::MAX, 1), usize::MAX);
    assert_eq!(align_up(usize::MAX - 1, 2), usize::MAX - 1);
    assert_eq!(align_up(usize::MAX - 2, 2), usize::MAX - 1);
    assert_eq!(align_up(usize::MAX - 4095, 4096), usize::MAX - 4095);
    assert_eq!(align_up(usize::MAX - 4096, 4096), usize::MAX - 4095);
}

#[test]
fn first_allocation_starts_at_zero() {
    let mut a = ReallyCoolAllocator::new();
    assert!(!a.ready());
    assert_eq!(a.allocate(16, 8), Ok(0));
    assert!(a.ready());
}

#[test]
fn results_are_aligned() {
    let mut a = ReallyCoolAllocator::new();
    assert_eq!(a.allocate(5, 1), Ok(0));
    let off = a.allocate(10, 256).unwrap();
    assert_eq!(off % 256, 0);
    assert_eq!(off, 256);
    let off2 = a.allocate(1, 4096).unwrap();
    assert_eq!(off2 % 4096, 0);
}

#[test]
fn live_allocations_do_not_overlap() {
    let mut a = ReallyCoolAllocator::new();
    let p1 = a.allocate(10, 1).unwrap();
    let p2 = a.allocate(10, 8).unwrap();
    let p3 = a.allocate(100, 64).unwrap();
    assert!(p1 + 10 <= p2 || p2 + 10 <= p1);
    assert!(p1 + 10 <= p3 || p3 + 100 <= p1);
    assert!(p2 + 10 <= p3 || p3 + 100 <= p2);
}

#[test]
fn oom_boundary() {
    let mut a = ReallyCoolAllocator::new();
    assert_eq!(a.allocate(ARENA_SIZE + 1, 1), Err(AllocError::OutOfMemory));
    assert_eq!(a.allocate(ARENA_SIZE, 1), Ok(0));
    assert_eq!(a.allocate(ARENA_SIZE, 1), Err(AllocError::OutOfMemory));
    assert_eq!(a.allocate(1, 1), Err(AllocError::OutOfMemory));
}

#[test]
fn alignment_ceiling() {
    let mut a = ReallyCoolAllocator::new();
    assert_eq!(
        a.allocate(1, MAX_SUPPORTED_ALIGN * 2),
        Err(AllocError::UnsupportedAlignment)
    );
    assert_eq!(a.allocate(64, 1), Ok(0));
    assert_eq!(
        a.allocate(1, MAX_SUPPORTED_ALIGN * 2),
        Err(AllocError::UnsupportedAlignment)
    );
}

#[test]
fn reuse_round_trip() {
    let mut a = ReallyCoolAllocator::new();
    let first = a.allocate(100, 16).unwrap();
    assert_eq!(first, 0);
    assert_eq!(a.deallocate(first, 100, 16), Ok(()));
    let second = a.allocate(100, 16).unwrap();
    assert_eq!(second, first);
}

#[test]
fn freeing_everything_coalesces_to_one_block() {
    let mut a = ReallyCoolAllocator::new();
    let p1 = a.allocate(100, 1).unwrap();
    let p2 = a.allocate(50, 1).unwrap();
    let p3 = a.allocate(30, 1).unwrap();
    assert_eq!((p1, p2, p3), (0, 100, 150));
    assert_eq!(a.deallocate(p2, 50, 1), Ok(()));
    assert_eq!(a.deallocate(p1, 100, 1), Ok(()));
    assert_eq!(a.deallocate(p3, 30, 1), Ok(()));
    assert_eq!(a.free_block_count(), 1);
    assert_eq!(a.free_bytes(), ARENA_SIZE);
    assert_eq!(a.allocate(ARENA_SIZE, 1), Ok(0));
}

#[test]
fn accounting_adds_up() {
    let mut a = ReallyCoolAllocator::new();
    let p1 = a.allocate(1000, 1).unwrap();
    assert_eq!(a.free_bytes(), ARENA_SIZE - 1000);
    let p2 = a.allocate(24, 8).unwrap();
    assert_eq!(a.free_bytes(), ARENA_SIZE - 1024);
    assert_eq!(a.deallocate(p1, 1000, 1), Ok(()));
    assert_eq!(a.free_bytes(), ARENA_SIZE - 24);
    assert_eq!(a.deallocate(p2, 24, 8), Ok(()));
    assert_eq!(a.free_bytes(), ARENA_SIZE);
}

#[test]
fn invalid_free_is_reported_and_harmless() {
    let mut a = ReallyCoolAllocator::new();
    let p = a.allocate(16, 1).unwrap();
    assert_eq!(a.deallocate(ARENA_SIZE, 16, 1), Err(AllocError::InvalidFree));
    assert_eq!(a.deallocate(0, 0, 1), Err(AllocError::InvalidFree));
    assert_eq!(a.deallocate(p, 16, 1), Ok(()));
    assert_eq!(a.allocate(ARENA_SIZE, 1), Ok(0));
}

#[test]
fn identical_states_make_identical_choices() {
    let mut a1 = ReallyCoolAllocator::new();
    let mut a2 = ReallyCoolAllocator::new();
    assert_eq!(a1.allocate(10, 4), a2.allocate(10, 4));
    assert_eq!(a1.allocate(20, 8), a2.allocate(20, 8));
    assert_eq!(a1.deallocate(0, 10, 4), a2.deallocate(0, 10, 4));
    assert_eq!(a1.allocate(5, 2), a2.allocate(5, 2));
    assert_eq!(a1.free_block_count(), a2.free_block_count());
    assert_eq!(a1.free_bytes(), a2.free_bytes());
}

#[test]
fn first_fit_prefers_the_lowest_address() {
    let mut a = ReallyCoolAllocator::new();
    assert_eq!(a.allocate(ARENA_SIZE - 8, 1), Ok(0));
    assert_eq!(a.allocate(16, 1), Err(AllocError::OutOfMemory));
    assert_eq!(a.allocate(8, 1), Ok(ARENA_SIZE - 8));
}

#[test]
fn freed_bytes_hold_the_sentinel() {
    let mut a = ReallyCoolAllocator::new();
    let p = a.allocate(4, 1).unwrap();
    assert_eq!(a.read_byte(p), SENTINEL_BYTE);
    a.write_byte(p, 0xab);
    a.write_byte(p + 3, 0xcd);
    assert_eq!(a.read_byte(p), 0xab);
    assert_eq!(a.read_byte(p + 3), 0xcd);
    assert_eq!(a.deallocate(p, 4, 1), Ok(()));
    assert_eq!(a.read_byte(p), SENTINEL_BYTE);
    assert_eq!(a.read_byte(p + 3), SENTINEL_BYTE);
    assert_eq!(a.read_byte(ARENA_SIZE - 1), SENTINEL_BYTE);
}

#[test]
fn metadata_exhaustion_is_fatal() {
    // 512 descriptor slots exist; lazy initialization takes one.  Each
    // release of an isolated range (both neighbours still live) takes
    // one more, so the 512th isolated release must fail and shut the
    // allocator down for good.
    let mut a = ReallyCoolAllocator::new();
    for i in 0..1100 {
        assert_eq!(a.allocate(16, 1), Ok(16 * i));
    }
    let mut ok_count = 0;
    let mut fatal = None;
    let mut i = 1;
    while i < 1098 {
        match a.deallocate(16 * i, 16, 1) {
            Ok(()) => ok_count += 1,
            Err(e) => {
                fatal = Some(e);
                break;
            }
        }
        i += 2;
    }
    assert_eq!(fatal, Some(AllocError::MetadataExhausted));
    assert_eq!(ok_count, 511);
    assert!(a.failed());
    assert_eq!(a.allocate(8, 1), Err(AllocError::MetadataExhausted));
    assert_eq!(a.deallocate(0, 16, 1), Err(AllocError::MetadataExhausted));
}

#[test]
fn padding_in_front_becomes_its_own_block() {
    let mut a = ReallyCoolAllocator::new();
    // Occupy [0, 10), then ask for an aligned block: the padding
    // [10, 64) stays free and is handed out to a later small request.
    assert_eq!(a.allocate(10, 1), Ok(0));
    assert_eq!(a.allocate(100, 64), Ok(64));
    assert_eq!(a.free_block_count(), 2);
    assert_eq!(a.allocate(54, 1), Ok(10));
}

#[test]
fn padding_with_exact_tail_consumption() {
    let mut a = ReallyCoolAllocator::new();
    // Occupy [0, 10); the aligned request then consumes the rest of
    // the arena exactly, leaving only the padding run [10, 64) free.
    assert_eq!(a.allocate(10, 1), Ok(0));
    assert_eq!(a.allocate(ARENA_SIZE - 64, 64), Ok(64));
    assert_eq!(a.free_block_count(), 1);
    assert_eq!(a.free_bytes(), 54);
    assert_eq!(a.allocate(55, 1), Err(AllocError::OutOfMemory));
    assert_eq!(a.allocate(54, 1), Ok(10));
}

fn lcg(seed: &mut u64, m: u64) -> u64 {
    *seed = seed
        .wrapping_mul(6364136223846793005)
        .wrapping_add(1442695040888963407);
    (*seed >> 33) % m
}

#[test]
fn mixed_traffic_keeps_the_invariants() {
    let mut a = ReallyCoolAllocator::new();
    let mut live: Vec<(usize, usize, usize)> = Vec::new();
    let mut seed: u64 = 12345;
    for _ in 0..200 {
        if live.len() < 8 || lcg(&mut seed, 2) == 0 {
            let size = 1 + lcg(&mut seed, 2000) as usize;
            let align = 1usize << lcg(&mut seed, 7);
            match a.allocate(size, align) {
                Ok(off) => {
                    assert_eq!(off % align, 0);
                    for &(o, s, _) in &live {
                        assert!(off + size <= o || o + s <= off);
                    }
                    live.push((off, size, align));
                }
                Err(e) => assert_eq!(e, AllocError::OutOfMemory),
            }
        } else {
            let k = lcg(&mut seed, live.len() as u64) as usize;
            let (o, s, al) = live.swap_remove(k);
            assert_eq!(a.deallocate(o, s, al), Ok(()));
        }
        let live_bytes: usize = live.iter().map(|&(_, s, _)| s).sum();
        assert_eq!(a.free_bytes() + live_bytes, ARENA_SIZE);
    }
    while let Some((o, s, al)) = live.pop() {
        assert_eq!(a.deallocate(o, s, al), Ok(()));
    }
    assert_eq!(a.free_block_count(), 1);
    assert_eq!(a.free_bytes(), ARENA_SIZE);
}
