use bump_allocator::{AllocError, EarlyAllocator, MIN_HEAP_SIZE};

const PAGE: usize = 0x1000;

fn fresh() -> EarlyAllocator<PAGE> {
    let mut a = EarlyAllocator::<PAGE>::new();
    a.init(0x1000, 0x8000);
    a
}

#[test]
fn new_is_empty() {
    let a = EarlyAllocator::<PAGE>::new();
    assert_eq!(a.used_bytes(), 0);
    assert_eq!(a.available_bytes(), 0);
    assert_eq!(a.total_bytes(), 0);
    assert_eq!(a.used_pages(), 0);
    assert_eq!(a.total_pages(), 0);
}

#[test]
fn init_sets_fronts() {
    let a = fresh();
    assert_eq!(a.used_bytes(), 0);
    assert_eq!(a.available_bytes(), 0x8000);
    assert_eq!(a.total_bytes(), 0x8000);
    assert_eq!(a.available_pages(), 8);
}

#[test]
fn init_at_minimum_size() {
    let mut a = EarlyAllocator::<PAGE>::new();
    a.init(0x10000, MIN_HEAP_SIZE);
    assert_eq!(MIN_HEAP_SIZE, 0x8000);
    assert_eq!(a.total_bytes(), MIN_HEAP_SIZE);
    assert_eq!(a.available_bytes(), MIN_HEAP_SIZE);
}

#[test]
fn first_byte_alloc_at_start() {
    let mut a = fresh();
    assert_eq!(a.alloc_bytes(64, 8), Ok(0x1000));
    assert_eq!(a.used_bytes(), 64);
    assert_eq!(a.available_bytes(), 0x8000 - 64);
}

#[test]
fn byte_alloc_rounds_up() {
    let mut a = fresh();
    assert_eq!(a.alloc_bytes(3, 1), Ok(0x1000));
    assert_eq!(a.alloc_bytes(16, 16), Ok(0x1010));
    assert_eq!(a.used_bytes(), 0x20);
    assert_eq!(a.alloc_bytes(1, 0x100), Ok(0x1100));
    assert_eq!(a.used_bytes(), 0x101);
}

#[test]
fn page_alloc_after_byte_alloc() {
    let mut a = fresh();
    assert_eq!(a.alloc_bytes(64, 8), Ok(0x1000));
    assert_eq!(a.alloc_pages(1, 0x1000), Ok(0x8000));
    assert_eq!(a.used_pages(), 1);
    assert_eq!(a.total_pages(), 1);
    assert_eq!(a.total_bytes(), 0x7000);
}

#[test]
fn page_alloc_until_out_of_memory() {
    let mut a = fresh();
    assert_eq!(a.alloc_bytes(64, 8), Ok(0x1000));
    let mut expected = 0x9000;
    loop {
        let before = a.used_pages();
        match a.alloc_pages(1, 0x1000) {
            Ok(p) => {
                expected -= 0x1000;
                assert_eq!(p, expected);
                assert_eq!(a.used_pages(), before + 1);
            }
            Err(e) => {
                assert_eq!(e, AllocError::NoMemory);
                assert_eq!(a.used_pages(), before);
                break;
            }
        }
    }
    assert_eq!(a.used_pages(), 7);
    assert_eq!(a.available_pages(), 0);
    assert_eq!(a.used_bytes(), 64);
}

#[test]
fn bulk_free_after_last_dealloc() {
    let mut a = fresh();
    let p1 = a.alloc_bytes(100, 8).unwrap();
    let p2 = a.alloc_bytes(200, 16).unwrap();
    let used = a.used_bytes();
    a.dealloc(p1, 100, 8);
    assert_eq!(a.used_bytes(), used);
    a.dealloc(p2, 200, 16);
    assert_eq!(a.used_bytes(), 0);
    assert_eq!(a.alloc_bytes(8, 8), Ok(0x1000));
}

#[test]
fn bad_page_alignment_is_invalid_param() {
    let mut a = fresh();
    a.alloc_bytes(64, 8).unwrap();
    let (u, av, t, up) = (a.used_bytes(), a.available_bytes(), a.total_bytes(), a.used_pages());
    assert_eq!(a.alloc_pages(1, PAGE / 2), Err(AllocError::InvalidParam));
    assert_eq!((a.used_bytes(), a.available_bytes(), a.total_bytes(), a.used_pages()), (u, av, t, up));
}

#[test]
fn byte_alloc_out_of_memory_changes_nothing() {
    let mut a = fresh();
    assert_eq!(a.alloc_bytes(0x8001, 1), Err(AllocError::NoMemory));
    assert_eq!(a.used_bytes(), 0);
    assert_eq!(a.alloc_bytes(0x8000, 1), Ok(0x1000));
    assert_eq!(a.available_bytes(), 0);
    assert_eq!(a.alloc_bytes(1, 1), Err(AllocError::NoMemory));
    assert_eq!(a.alloc_pages(1, PAGE), Err(AllocError::NoMemory));
}

#[test]
fn byte_and_page_fronts_meet_exactly() {
    let mut a = fresh();
    assert_eq!(a.alloc_pages(7, PAGE), Ok(0x2000));
    assert_eq!(a.alloc_bytes(0x1000, 0x1000), Ok(0x1000));
    assert_eq!(a.available_bytes(), 0);
    assert_eq!(a.alloc_bytes(0, 1), Ok(0x2000));
}

#[test]
fn page_alloc_rounds_down_to_alignment() {
    let mut a = fresh();
    assert_eq!(a.alloc_pages(1, 0x4000), Ok(0x8000));
    assert_eq!(a.alloc_pages(1, 0x4000), Ok(0x4000));
    assert_eq!(a.used_pages(), 2);
    assert_eq!(a.total_bytes(), 0x3000);
}

#[test]
fn huge_page_count_is_out_of_memory() {
    let mut a = fresh();
    assert_eq!(a.alloc_pages(usize::MAX, PAGE), Err(AllocError::NoMemory));
    assert_eq!(a.alloc_pages(9, PAGE), Err(AllocError::NoMemory));
    assert_eq!(a.used_pages(), 0);
}

#[test]
fn dealloc_pages_is_a_no_op() {
    let mut a = fresh();
    let p = a.alloc_pages(2, PAGE).unwrap();
    a.dealloc_pages(p, 2);
    assert_eq!(a.used_pages(), 2);
    assert_eq!(a.total_bytes(), 0x6000);
}

#[test]
fn add_memory_is_unsupported() {
    let mut a = fresh();
    assert_eq!(a.add_memory(0x100000, 0x8000), Err(AllocError::Unsupported));
    assert_eq!(a.total_bytes(), 0x8000);
}

#[test]
fn over_free_saturates() {
    let mut a = fresh();
    a.dealloc(0x1000, 8, 8);
    assert_eq!(a.used_bytes(), 0);
    let p = a.alloc_bytes(8, 8).unwrap();
    assert_eq!(p, 0x1000);
    a.dealloc(p, 8, 8);
    a.dealloc(p, 8, 8);
    assert_eq!(a.alloc_bytes(8, 8), Ok(0x1000));
}

#[test]
fn accounting_adds_up_and_total_is_kept() {
    let mut a = fresh();
    let t = a.total_bytes();
    for (s, al) in [(5usize, 1usize), (17, 4), (64, 64), (1, 2)] {
        a.alloc_bytes(s, al).unwrap();
        assert_eq!(a.used_bytes() + a.available_bytes(), a.total_bytes());
        assert_eq!(a.total_bytes(), t);
    }
}

#[test]
fn bulk_free_of_many_allocations() {
    let mut a = fresh();
    let reqs = [(1usize, 1usize), (7, 8), (33, 32), (100, 4), (3, 2)];
    let mut addrs = Vec::new();
    for (s, al) in reqs {
        let p = a.alloc_bytes(s, al).unwrap();
        assert_eq!(p % al, 0);
        addrs.push(p);
    }
    for (p, (s, al)) in addrs.into_iter().zip(reqs) {
        a.dealloc(p, s, al);
    }
    assert_eq!(a.used_bytes(), 0);
}

#[test]
fn page_front_never_rises() {
    let mut a = fresh();
    let mut last = a.total_bytes();
    for al in [PAGE, 0x2000, PAGE, 0x800] {
        let _ = a.alloc_pages(1, al);
        a.dealloc_pages(0x8000, 1);
        assert!(a.total_bytes() <= last);
        last = a.total_bytes();
    }
}
