use bump_allocator::{AllocError, EarlyAllocator};

const PAGE: usize = 0x1000;

fn bound(start: usize, size: usize) -> EarlyAllocator<PAGE> {
    let mut a = EarlyAllocator::<PAGE>::new();
    a.init(start, size);
    a
}

#[test]
fn new_allocator_is_empty() {
    let a = EarlyAllocator::<PAGE>::new();
    assert_eq!(a.total_bytes(), 0);
    assert_eq!(a.used_bytes(), 0);
    assert_eq!(a.available_bytes(), 0);
    assert_eq!(a.total_pages(), 0);
    assert_eq!(a.used_pages(), 0);
    assert_eq!(a.available_pages(), 0);
}

#[test]
fn new_allocator_has_no_room() {
    let mut a = EarlyAllocator::<PAGE>::new();
    assert_eq!(a.alloc_bytes(1, 1), Err(AllocError::NoMemory));
    assert_eq!(a.alloc_pages(1, 0), Err(AllocError::NoMemory));
    assert_eq!(a.alloc_bytes(0, 1), Ok(0));
}

#[test]
fn init_binds_the_region() {
    let a = bound(0x1000, 0x10000);
    assert_eq!(a.total_bytes(), 0x10000);
    assert_eq!(a.used_bytes(), 0);
    assert_eq!(a.available_bytes(), 0x10000);
    assert_eq!(a.total_pages(), 16);
    assert_eq!(a.used_pages(), 0);
    assert_eq!(a.available_pages(), 16);
}

#[test]
fn add_memory_always_succeeds() {
    let mut a = EarlyAllocator::<PAGE>::new();
    assert_eq!(a.add_memory(0x8000, 0x2000), Ok(()));
    assert_eq!(a.total_bytes(), 0x2000);
    assert_eq!(a.available_bytes(), 0x2000);
}

#[test]
fn byte_allocations_are_aligned_and_bump_upward() {
    let mut a = bound(0x1000, 0x10000);
    assert_eq!(a.alloc_bytes(8, 8), Ok(0x1000));
    assert_eq!(a.used_bytes(), 8);
    assert_eq!(a.alloc_bytes(1, 1), Ok(0x1008));
    assert_eq!(a.used_bytes(), 9);
    assert_eq!(a.alloc_bytes(4, 16), Ok(0x1010));
    assert_eq!(a.used_bytes(), 0x14);
    assert_eq!(a.available_bytes(), 0x10000 - 0x14);
    assert_eq!(a.total_bytes(), 0x10000);
}

#[test]
fn returned_address_is_the_aligned_one() {
    let mut a = bound(0x1001, 0x1000);
    let addr = a.alloc_bytes(16, 64).unwrap();
    assert_eq!(addr, 0x1040);
    assert_eq!(addr % 64, 0);
    assert_eq!(a.used_bytes(), 0x1050 - 0x1001);
}

#[test]
fn byte_alignment_holds_for_many_requests() {
    let mut a = bound(0x1003, 0x8000);
    let aligns: [usize; 6] = [1, 2, 8, 64, 256, 4096];
    let mut prev_end: usize = 0x1003;
    for (i, align) in aligns.iter().enumerate() {
        let size = 3 + i;
        let addr = a.alloc_bytes(size, *align).unwrap();
        assert_eq!(addr % *align, 0);
        assert!(addr >= prev_end);
        assert!(addr < prev_end + *align);
        prev_end = addr + size;
        assert_eq!(a.used_bytes(), prev_end - 0x1003);
        assert!(a.used_bytes() + a.available_bytes() <= a.total_bytes());
    }
}

#[test]
fn single_level_rollback() {
    let mut a = bound(0x1000, 0x4000);
    let before = a.used_bytes();
    let addr = a.alloc_bytes(8, 8).unwrap();
    assert_eq!(a.used_bytes(), before + 8);
    a.dealloc(addr, 8);
    assert_eq!(a.used_bytes(), before);
    assert_eq!(a.available_bytes(), 0x4000);
    a.dealloc(addr, 8);
    assert_eq!(a.used_bytes(), before);
    assert_eq!(a.available_bytes(), 0x4000);
}

#[test]
fn rollback_returns_the_padding_too() {
    let mut a = bound(0x1000, 0x4000);
    assert_eq!(a.alloc_bytes(1, 1), Ok(0x1000));
    let addr = a.alloc_bytes(8, 64).unwrap();
    assert_eq!(addr, 0x1040);
    assert_eq!(a.used_bytes(), 0x48);
    a.dealloc(addr, 8);
    assert_eq!(a.used_bytes(), 1);
}

#[test]
fn second_free_does_not_roll_back_twice() {
    let mut a = bound(0x1000, 0x4000);
    let first = a.alloc_bytes(8, 8).unwrap();
    let second = a.alloc_bytes(8, 8).unwrap();
    a.dealloc(second, 8);
    assert_eq!(a.used_bytes(), 8);
    a.dealloc(second, 8);
    assert_eq!(a.used_bytes(), 8);
    a.dealloc(first, 8);
    assert_eq!(a.used_bytes(), 8);
}

#[test]
fn only_the_last_allocation_is_reclaimable() {
    let mut a = bound(0x1000, 0x4000);
    let first = a.alloc_bytes(8, 8).unwrap();
    let second = a.alloc_bytes(8, 8).unwrap();
    assert_eq!(second, first + 8);
    a.dealloc(first, 8);
    assert_eq!(a.used_bytes(), 16);
    assert_eq!(a.available_bytes(), 0x4000 - 16);
}

#[test]
fn freeing_an_unknown_address_changes_nothing() {
    let mut a = bound(0x1000, 0x4000);
    a.dealloc(0x1000, 8);
    assert_eq!(a.used_bytes(), 0);
    let _ = a.alloc_bytes(8, 8).unwrap();
    a.dealloc(0x2000, 8);
    assert_eq!(a.used_bytes(), 8);
}

#[test]
fn page_allocations_bump_downward() {
    let mut a = bound(0x1000, 0x10000);
    assert_eq!(a.alloc_pages(2, 0), Ok(0xF000));
    assert_eq!(a.used_pages(), 2);
    assert_eq!(a.available_pages(), 14);
    assert_eq!(a.alloc_pages(1, 14), Ok(0xC000));
    assert_eq!(a.used_pages(), 5);
    assert_eq!(a.available_pages(), 11);
    assert_eq!(a.total_pages(), 16);
    assert_eq!(a.available_bytes(), 0xC000 - 0x1000);
}

#[test]
fn page_addresses_are_aligned() {
    let mut a = bound(0x100000, 0x100000);
    let shifts: [usize; 5] = [0, 4, 12, 13, 16];
    let mut top: usize = 0x200000;
    for (i, shift) in shifts.iter().enumerate() {
        let count = i + 1;
        let addr = a.alloc_pages(count, *shift).unwrap();
        assert_eq!(addr % PAGE, 0);
        assert_eq!(addr % (1usize << *shift), 0);
        assert!(addr + count * PAGE <= top);
        top = addr;
        assert_eq!(a.available_bytes(), top - 0x100000);
    }
}

#[test]
fn page_permanence() {
    let mut a = bound(0x1000, 0x10000);
    let base = a.alloc_pages(3, 0).unwrap();
    assert_eq!(base, 0xE000);
    let available = a.available_pages();
    let used = a.used_pages();
    a.dealloc_pages(base, 3);
    assert_eq!(a.available_pages(), available);
    assert_eq!(a.available_pages(), 13);
    assert_eq!(a.used_pages(), used);
    assert_eq!(a.used_pages(), 3);
    assert_eq!(a.available_bytes(), 0xD000);
}

#[test]
fn byte_exhaustion_leaves_the_state_alone() {
    let mut a = bound(0x1000, 0x40);
    let mut granted = 0;
    loop {
        match a.alloc_bytes(0x18, 8) {
            Ok(addr) => {
                assert_eq!(addr, 0x1000 + granted * 0x18);
                granted += 1;
            }
            Err(e) => {
                assert_eq!(e, AllocError::NoMemory);
                break;
            }
        }
    }
    assert_eq!(granted, 2);
    assert_eq!(a.used_bytes(), 0x30);
    assert_eq!(a.available_bytes(), 0x10);
    assert_eq!(a.alloc_bytes(0x11, 1), Err(AllocError::NoMemory));
    assert_eq!(a.used_bytes(), 0x30);
    assert_eq!(a.available_bytes(), 0x10);
    // The failed attempts did not disturb the rollback record either.
    a.dealloc(0x1018, 0x18);
    assert_eq!(a.used_bytes(), 0x18);
    // And what still fits is still served.
    assert_eq!(a.alloc_bytes(0x28, 8), Ok(0x1018));
    assert_eq!(a.available_bytes(), 0);
}

#[test]
fn exact_fit_succeeds() {
    let mut a = bound(0x1000, 0x20);
    assert_eq!(a.alloc_bytes(0x20, 16), Ok(0x1000));
    assert_eq!(a.available_bytes(), 0);
    assert_eq!(a.alloc_bytes(1, 1), Err(AllocError::NoMemory));
    assert_eq!(a.alloc_bytes(0, 1), Ok(0x1020));
    assert_eq!(a.alloc_pages(1, 0), Err(AllocError::NoMemory));
}

#[test]
fn alignment_padding_can_exhaust_the_span() {
    let mut a = bound(0x1001, 0x3f);
    assert_eq!(a.alloc_bytes(1, 0x40), Err(AllocError::NoMemory));
    assert_eq!(a.used_bytes(), 0);
    assert_eq!(a.alloc_bytes(0x3f, 1), Ok(0x1001));
}

#[test]
fn huge_requests_fail_without_wrapping() {
    let mut a = bound(0x1000, 0x10000);
    assert_eq!(a.alloc_bytes(usize::MAX, 8), Err(AllocError::NoMemory));
    assert_eq!(a.alloc_bytes(usize::MAX - 0x1000, 1), Err(AllocError::NoMemory));
    assert_eq!(a.alloc_pages(usize::MAX, 0), Err(AllocError::NoMemory));
    assert_eq!(a.alloc_pages(usize::MAX / PAGE, 0), Err(AllocError::NoMemory));
    assert_eq!(a.used_bytes(), 0);
    assert_eq!(a.available_bytes(), 0x10000);
    let mut top = EarlyAllocator::<PAGE>::new();
    top.init(usize::MAX - 0x10, 0x10);
    assert_eq!(top.alloc_bytes(1, 0x100), Err(AllocError::NoMemory));
    assert_eq!(top.alloc_bytes(0x10, 1), Ok(usize::MAX - 0x10));
}

#[test]
fn pages_stop_at_the_byte_cursor() {
    let mut a = bound(0x1000, 0x3000);
    assert_eq!(a.alloc_bytes(0x1001, 1), Ok(0x1000));
    assert_eq!(a.alloc_pages(2, 0), Err(AllocError::NoMemory));
    assert_eq!(a.available_bytes(), 0x4000 - 0x2001);
    assert_eq!(a.used_pages(), 0);
    assert_eq!(a.alloc_pages(1, 0), Ok(0x3000));
    assert_eq!(a.used_pages(), 1);
    // Rounding down to the alignment would cross the byte cursor.
    assert_eq!(a.alloc_pages(0, 13), Err(AllocError::NoMemory));
    assert_eq!(a.alloc_pages(0, 12), Ok(0x3000));
    assert_eq!(a.available_bytes(), 0x3000 - 0x2001);
}

#[test]
fn bytes_stop_at_the_page_cursor() {
    let mut a = bound(0x1000, 0x3000);
    assert_eq!(a.alloc_pages(2, 0), Ok(0x2000));
    assert_eq!(a.alloc_bytes(0x1001, 1), Err(AllocError::NoMemory));
    assert_eq!(a.alloc_bytes(0x1000, 1), Ok(0x1000));
    assert_eq!(a.available_bytes(), 0);
    assert_eq!(a.available_pages(), 0);
}

#[test]
fn byte_and_page_spans_never_overlap() {
    let mut a = bound(0x10000, 0x20000);
    let mut bytes: Vec<(usize, usize)> = Vec::new();
    let mut pages: Vec<(usize, usize)> = Vec::new();
    for round in 0..64usize {
        let size = 0x700 + round * 0x31;
        if let Ok(addr) = a.alloc_bytes(size, 1 << (round % 7)) {
            bytes.push((addr, addr + size));
        }
        if round % 3 == 0 {
            if let Ok(addr) = a.alloc_pages(1 + round % 2, round % 14) {
                pages.push((addr, addr + (1 + round % 2) * PAGE));
            }
        }
        assert!(a.used_bytes() + a.available_bytes() <= a.total_bytes());
    }
    assert!(!bytes.is_empty());
    assert!(!pages.is_empty());
    for (lo, hi) in bytes.iter() {
        for (plo, phi) in pages.iter() {
            assert!(hi <= plo || phi <= lo);
        }
    }
    for (i, (lo, hi)) in bytes.iter().enumerate() {
        for (lo2, hi2) in bytes.iter().skip(i + 1) {
            assert!(hi <= lo2 || hi2 <= lo);
        }
    }
    for (i, (lo, hi)) in pages.iter().enumerate() {
        for (lo2, hi2) in pages.iter().skip(i + 1) {
            assert!(hi <= lo2 || hi2 <= lo);
        }
    }
}

#[test]
fn reinitialization_resets_both_cursors() {
    let mut a = bound(0x1000, 0x10000);
    let addr = a.alloc_bytes(0x100, 8).unwrap();
    assert_eq!(a.alloc_pages(4, 0), Ok(0xD000));
    a.init(0x40000, 0x8000);
    assert_eq!(a.total_bytes(), 0x8000);
    assert_eq!(a.used_bytes(), 0);
    assert_eq!(a.available_bytes(), 0x8000);
    assert_eq!(a.used_pages(), 0);
    assert_eq!(a.available_pages(), 8);
    assert_eq!(a.total_pages(), 8);
    // An address of the earlier binding is not reclaimable any more.
    a.dealloc(addr, 0x100);
    assert_eq!(a.used_bytes(), 0);
    assert_eq!(a.alloc_bytes(8, 8), Ok(0x40000));
    assert_eq!(a.alloc_pages(1, 0), Ok(0x47000));
}

#[test]
fn page_statistics_round_down() {
    let mut a = bound(0x1000, 0x2800);
    assert_eq!(a.total_pages(), 2);
    assert_eq!(a.available_pages(), 2);
    assert_eq!(a.alloc_bytes(0x900, 1), Ok(0x1000));
    assert_eq!(a.available_pages(), 1);
    assert_eq!(a.used_pages(), 0);
}

#[test]
fn alignment_wider_than_an_address_rounds_down_to_zero() {
    let mut a = bound(0x1000, 0x10000);
    assert_eq!(a.alloc_pages(1, usize::BITS as usize), Err(AllocError::NoMemory));
    assert_eq!(a.alloc_pages(1, usize::MAX), Err(AllocError::NoMemory));
    assert_eq!(a.available_pages(), 16);
    assert_eq!(a.alloc_pages(1, usize::BITS as usize - 1), Err(AllocError::NoMemory));
    let mut z = bound(0, 0x10000);
    assert_eq!(z.alloc_pages(1, 200), Ok(0));
    assert_eq!(z.available_bytes(), 0);
    assert_eq!(z.used_pages(), 16);
}

#[test]
fn rollback_between_page_allocations_keeps_sides_apart() {
    let mut a = EarlyAllocator::<PAGE>::new();
    a.init(0x10000, 0x8000);
    let first = a.alloc_bytes(0x2000, 8).unwrap();
    let second = a.alloc_bytes(0x3000, 8).unwrap();
    assert_eq!((first, second), (0x10000, 0x12000));
    assert_eq!(a.alloc_pages(4, 0), Err(AllocError::NoMemory));
    a.dealloc(second, 0x3000);
    assert_eq!(a.alloc_pages(4, 0), Ok(0x14000));
    // The span of `first` is still in use and below every page handed out.
    assert_eq!(a.used_bytes(), 0x2000);
    assert_eq!(a.alloc_pages(2, 0), Ok(0x12000));
    assert_eq!(a.alloc_pages(1, 0), Err(AllocError::NoMemory));
    assert_eq!(a.alloc_bytes(1, 1), Err(AllocError::NoMemory));
    assert_eq!(a.available_bytes(), 0);
}
