use tisu_memory::{Heap, MemError, MemoryManager, MemoryPool, Page, PageBit, PageManager};

fn standard() -> MemoryManager {
    // page_size 4096, kernel region 128 frames, 1 MiB managed range
    MemoryManager::new(0, 128, 4096, 0x100000)
}

#[test]
fn small_alloc_zeroed_and_reused() {
    let mut mgr = standard();
    let a = mgr.alloc_memory(4, true).expect("kernel alloc");
    // the first frame backs the page-state bookkeeping
    assert!(a >= 0x1000 && a < 0x80000);
    for off in 0..4 {
        assert_eq!(mgr.read_byte(a + off), 0);
    }
    assert_eq!(mgr.free_memory(a), Ok(()));
    // the emptied pool is kept as a hot cache, so the same slot comes back
    let b = mgr.alloc_memory(4, true).expect("kernel alloc again");
    assert_eq!(b, a);
}

#[test]
fn two_hundred_slots_disjoint_aligned_contained() {
    let mut mgr = standard();
    let mut got: Vec<usize> = Vec::new();
    for _ in 0..200 {
        let a = mgr.alloc_memory(8, true).expect("alloc 8 bytes");
        assert!(a >= 0x1000 && a + 8 <= 0x80000);
        assert_eq!(a % 8, 0);
        got.push(a);
    }
    for i in 0..got.len() {
        for j in 0..i {
            let (x, y) = (got[i], got[j]);
            assert!(x + 8 <= y || y + 8 <= x, "slots overlap: {x:#x} {y:#x}");
        }
    }
}

#[test]
fn page_run_of_three_frames() {
    let mut mgr = standard();
    let p = mgr.kernel_page(3).expect("3 frames");
    assert_eq!(p % 4096, 0);
    assert!(p >= 0x1000 && p + 3 * 4096 <= 0x80000);
    for off in [0usize, 4096, 8192] {
        assert_eq!(mgr.read_byte(p + off), 0);
        mgr.write_byte(p + off, 0xAB);
        assert_eq!(mgr.read_byte(p + off), 0xAB);
    }
    assert_eq!(mgr.free_page(p), Ok(()));
    // all three frames are free again: the same run is handed out next
    let q = mgr.kernel_page(3).expect("3 frames again");
    assert_eq!(q, p);
}

#[test]
fn large_request_rounds_to_big_class() {
    let mut mgr = standard();
    let a = mgr.alloc_memory(5000, true).expect("5000 bytes");
    assert!(a >= 0x1000 && a + 8192 <= 0x80000);
    // the whole 8192-byte class slot is zeroed and usable
    assert_eq!(mgr.read_byte(a), 0);
    assert_eq!(mgr.read_byte(a + 8191), 0);
    mgr.write_byte(a + 8191, 7);
    assert_eq!(mgr.read_byte(a + 8191), 7);
    assert_eq!(mgr.free_memory(a), Ok(()));
}

#[test]
fn out_of_range_free_reports_all_bounds() {
    let mut mgr = standard();
    let r = mgr.free_memory(0xDEADBEEF);
    assert_eq!(
        r,
        Err(MemError::OutOfRange {
            addr: 0xDEADBEEF,
            kernel_start: 0,
            user_start: 0x80000,
            memory_end: 0x100000,
        })
    );
}

#[test]
fn double_free_is_detected() {
    let mut mgr = standard();
    let a = mgr.alloc_memory(16, true).expect("alloc");
    assert_eq!(mgr.free_memory(a), Ok(()));
    assert_eq!(mgr.free_memory(a), Err(MemError::DoubleFree { addr: a }));
}

#[test]
fn free_of_unknown_address_is_refused() {
    let mut mgr = standard();
    // in the kernel region, but no pool exists yet
    assert_eq!(mgr.free_memory(0x3000), Err(MemError::NotContained { addr: 0x3000 }));
}

#[test]
fn user_region_allocations() {
    let mut mgr = standard();
    let a = mgr.alloc_memory(64, false).expect("user alloc");
    assert!(a >= 0x80000 && a + 64 <= 0x100000);
    assert_eq!(a % 64, 0);
    assert_eq!(mgr.read_byte(a), 0);
    let p = mgr.user_page(2).expect("user pages");
    assert!(p >= 0x80000 && p + 2 * 4096 <= 0x100000);
    assert_eq!(p % 4096, 0);
    assert_eq!(mgr.free_memory(a), Ok(()));
    assert_eq!(mgr.free_page(p), Ok(()));
}

#[test]
fn exhaustion_returns_none() {
    let mut mgr = standard();
    // the kernel region has 128 frames; a 200-frame run cannot fit
    assert_eq!(mgr.kernel_page(200), None);
    // nor can a byte request larger than the whole region
    assert_eq!(mgr.alloc_memory(0x90000, true), None);
}

#[test]
fn freed_memory_comes_back_zeroed() {
    let mut mgr = standard();
    let a = mgr.alloc_memory(32, true).expect("alloc");
    mgr.write_byte(a, 0xFF);
    mgr.write_byte(a + 31, 0xEE);
    assert_eq!(mgr.free_memory(a), Ok(()));
    let b = mgr.alloc_memory(32, true).expect("alloc again");
    assert_eq!(b, a);
    assert_eq!(mgr.read_byte(b), 0);
    assert_eq!(mgr.read_byte(b + 31), 0);
}

#[test]
fn retirement_keeps_pool_count_bounded() {
    let page = PageManager::new(0, 0x80000, 0x100000, 4096);
    let mut heap = Heap::new(page);
    // repeatedly fill a class-32 pool past its capacity and drain it all
    for _round in 0..5 {
        let mut got: Vec<usize> = Vec::new();
        for _ in 0..200 {
            got.push(heap.alloc_kernel_memory(32).expect("class-32 slot"));
        }
        let pools =
            heap.get_free_block_num(32, true) + heap.get_used_block_num(32, true);
        assert!(pools <= 3, "too many class-32 pools while full: {pools}");
        for a in got {
            assert_eq!(heap.free_kernel_memory(a), Ok(()));
        }
        let empties = heap.get_free_block_num(32, true);
        assert!(empties <= 2, "empty class-32 pools not retired: {empties}");
        assert_eq!(heap.get_used_block_num(32, true), 0);
    }
}

#[test]
fn oversized_class_can_serve_smaller_request() {
    let page = PageManager::new(0, 0x80000, 0x100000, 4096);
    let mut heap = Heap::new(page);
    // create a class-64 pool, then ask for 8 bytes: the scan accepts the
    // first pool of sufficient class with a free slot
    let a = heap.alloc_kernel_memory(64).expect("class-64 slot");
    let b = heap.alloc_kernel_memory(8).expect("8 bytes");
    assert_eq!(b % 8, 0);
    assert!(b != a);
    assert_eq!(heap.free_kernel_memory(a), Ok(()));
    assert_eq!(heap.free_kernel_memory(b), Ok(()));
}

#[test]
fn page_flags_track_state() {
    let mut p = Page { flag: 0 };
    assert!(p.is_free());
    assert!(!p.is_end());
    p.take();
    assert!(!p.is_free());
    assert!(!p.is_end());
    p.end();
    assert!(p.is_end());
    assert_eq!(p.flag, 3);
    p.free();
    assert!(p.is_free());
    assert_eq!(PageBit::Taken.val(), 1);
    assert_eq!(PageBit::End.val(), 2);
}

#[test]
fn pool_predicates() {
    // 4096 backing bytes split into 32-byte slots, 10 of them free
    let mut pool = MemoryPool::init(0x1000, 4096, 32, 10, 0x1000, 1);
    assert!(pool.can_contain(16));
    assert!(pool.can_contain(32));
    assert!(!pool.can_contain(64));
    assert!(pool.is_inside());
    assert!(pool.is_contain(0x1000));
    assert!(pool.is_contain(0x1FFF));
    assert!(!pool.is_contain(0xFFF));
    assert!(!pool.is_contain(0x2000));
    // slot 0 is seeded as occupied by the in-band header, and the header
    // is not a user allocation: freeing it is refused
    assert!(!pool.free_bitmap(0x1000));
    // a really allocated slot frees exactly once
    let slot = pool.bitmap.alloc_bitmap().expect("a free slot");
    let addr = 0x1000 + slot * 32;
    assert!(pool.free_bitmap(addr));
    assert!(!pool.free_bitmap(addr));
}

#[test]
fn page_layer_first_fit_is_lowest_address() {
    let mut pm = PageManager::new(0, 0x80000, 0x100000, 4096);
    let a = pm.alloc_kernel_page(1).expect("one frame");
    let b = pm.alloc_kernel_page(1).expect("one frame");
    assert_eq!(a, 0x1000);
    assert_eq!(b, 0x2000);
    assert_eq!(pm.free_page(a), Ok(()));
    // the freed lower frame is chosen again before anything higher
    let c = pm.alloc_kernel_page(1).expect("one frame");
    assert_eq!(c, a);
    assert_eq!(pm.page_size(), 4096);
}
