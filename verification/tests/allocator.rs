use riscv_mm::frame::{align_val, DeallocError, FrameAllocator, Page, PageBits};

const HEAP_BASE: u64 = 0x8000_0000;
const PAGE: u64 = 4096;

fn heap16() -> FrameAllocator {
    FrameAllocator::init(HEAP_BASE, 16 * PAGE)
}

#[test]
fn align_val_rounds_up() {
    assert_eq!(align_val(0x1234, 12), 0x2000);
    assert_eq!(align_val(0x1000, 12), 0x1000);
    assert_eq!(align_val(0, 12), 0);
    assert_eq!(align_val(1, 12), 0x1000);
    assert_eq!(align_val(7, 3), 8);
}

#[test]
fn page_flags() {
    let mut p = Page::new();
    assert!(p.is_free());
    assert!(!p.is_taken());
    assert!(!p.is_last());
    p.set_flag(PageBits::Taken);
    assert!(p.is_taken());
    assert!(!p.is_last());
    p.set_flag(PageBits::Last);
    assert!(p.is_taken());
    assert!(p.is_last());
    p.clear_flag(PageBits::Taken);
    assert!(p.is_free());
    assert!(p.is_last());
    p.clear();
    assert!(p.is_free());
    assert!(!p.is_last());
}

#[test]
fn first_fit_addresses() {
    let mut a = heap16();
    let start = a.alloc_start();
    assert_eq!(a.num_pages(), 16);
    assert_eq!(start, align_val(HEAP_BASE + 16, 12));
    assert_eq!(a.allocate(10), Some(start));
    assert_eq!(a.allocate(1), Some(start + 10 * PAGE));
    assert_eq!(a.allocate(1), Some(start + 11 * PAGE));
}

#[test]
fn alloc_then_dealloc_restores_all_free() {
    // P-style round trip: one allocation, then deallocating its address
    // leaves every frame free again
    let mut a = heap16();
    let start = a.alloc_start();
    let got = a.allocate(5).unwrap();
    assert_eq!(got, start);
    let rep = a.allocation_report();
    assert_eq!(rep.allocated, 5);
    assert_eq!(rep.free, 11);
    assert_eq!(a.dealloc(got), Ok(()));
    let rep = a.allocation_report();
    assert_eq!(rep.allocated, 0);
    assert_eq!(rep.free, 16);
    assert_eq!(rep.runs.len(), 0);
}

#[test]
fn allocations_never_share_a_frame() {
    let mut a = heap16();
    let a1 = a.allocate(4).unwrap();
    let a2 = a.allocate(7).unwrap();
    // disjoint frame ranges
    assert!(a1 + 4 * PAGE <= a2 || a2 + 7 * PAGE <= a1);
}

#[test]
fn alloc_fails_iff_no_contiguous_run() {
    // fragment the heap with single-frame allocations, free every other
    // frame, and watch a two-frame request fail until a neighbour is freed
    let mut a = heap16();
    let mut addrs = Vec::new();
    for _ in 0..16 {
        addrs.push(a.allocate(1).unwrap());
    }
    assert_eq!(a.allocate(1), None);
    for i in (0..16).step_by(2) {
        assert_eq!(a.dealloc(addrs[i]), Ok(()));
    }
    // eight free frames, but no two adjacent
    assert_eq!(a.allocation_report().free, 8);
    assert_eq!(a.allocate(2), None);
    assert_eq!(a.allocate(1), Some(a.alloc_start()));
    // freeing frame 1 joins frames 1 and 2 into a run of two
    assert_eq!(a.dealloc(addrs[1]), Ok(()));
    assert_eq!(a.allocate(2), Some(a.alloc_start() + PAGE));
}

#[test]
fn double_free_is_fatal() {
    let mut a = heap16();
    let p = a.allocate(3).unwrap();
    assert_eq!(a.dealloc(p), Ok(()));
    assert_eq!(a.dealloc(p), Err(DeallocError::DoubleFree));
}

#[test]
fn dealloc_out_of_range_is_fatal() {
    let mut a = heap16();
    let start = a.alloc_start();
    assert_eq!(a.dealloc(start - PAGE), Err(DeallocError::OutOfRange));
    assert_eq!(a.dealloc(start + 16 * PAGE), Err(DeallocError::OutOfRange));
}

#[test]
fn report_lists_runs_exactly() {
    let mut a = heap16();
    let start = a.alloc_start();
    let r1 = a.allocate(2).unwrap();
    let _r2 = a.allocate(3).unwrap();
    let r3 = a.allocate(1).unwrap();
    assert_eq!(a.dealloc(r1), Ok(()));
    let rep = a.allocation_report();
    assert_eq!(rep.allocated, 4);
    assert_eq!(rep.free, 12);
    assert_eq!(rep.runs.len(), 2);
    assert_eq!(rep.runs[0].start, start + 2 * PAGE);
    assert_eq!(rep.runs[0].end, start + 5 * PAGE - 1);
    assert_eq!(rep.runs[0].pages, 3);
    assert_eq!(rep.runs[1].start, r3);
    assert_eq!(rep.runs[1].end, r3 + PAGE - 1);
    assert_eq!(rep.runs[1].pages, 1);
}

#[test]
fn whole_heap_in_one_run() {
    let mut a = heap16();
    assert_eq!(a.allocate(16), Some(a.alloc_start()));
    assert_eq!(a.allocate(1), None);
    let rep = a.allocation_report();
    assert_eq!(rep.allocated, 16);
    assert_eq!(rep.free, 0);
    assert_eq!(rep.runs.len(), 1);
    assert_eq!(rep.runs[0].pages, 16);
}

#[test]
fn oversized_request_fails() {
    let mut a = heap16();
    assert_eq!(a.allocate(17), None);
    assert_eq!(a.allocation_report().free, 16);
}
