use riscv_mm::page::Memory;

const HEAP_BASE: u64 = 0x8000_0000;
const PAGE: u64 = 4096;

#[test]
fn sixteen_frame_bringup_scenario() {
    // initialize a heap of 16 frames; allocate 10, then 1, then 1; zero-
    // allocate 4; free the 4-frame block; the report shows exactly 12
    // allocated and 4 free frames, with the three remaining runs' bounds
    let mut mem = Memory::init(HEAP_BASE, 16 * PAGE);
    let start = mem.allocator().alloc_start();
    let a0 = mem.allocate(10).unwrap();
    let a1 = mem.allocate(1).unwrap();
    let a2 = mem.allocate(1).unwrap();
    assert_eq!(a0, start);
    assert_eq!(a1, start + 10 * PAGE);
    assert_eq!(a2, start + 11 * PAGE);
    let z = mem.zalloc(4).unwrap();
    assert_eq!(z, start + 12 * PAGE);
    // the zero-allocated frames read as all-zero words
    for t in 12..16 {
        for k in 0..512 {
            assert_eq!(mem.entry_value(t, k), 0);
        }
    }
    assert_eq!(mem.dealloc(z), Ok(()));
    let rep = mem.allocator().allocation_report();
    assert_eq!(rep.allocated, 12);
    assert_eq!(rep.free, 4);
    assert_eq!(rep.runs.len(), 3);
    assert_eq!(rep.runs[0].start, start);
    assert_eq!(rep.runs[0].end, start + 10 * PAGE - 1);
    assert_eq!(rep.runs[0].pages, 10);
    assert_eq!(rep.runs[1].start, start + 10 * PAGE);
    assert_eq!(rep.runs[1].pages, 1);
    assert_eq!(rep.runs[2].start, start + 11 * PAGE);
    assert_eq!(rep.runs[2].end, start + 12 * PAGE - 1);
    assert_eq!(rep.runs[2].pages, 1);
}
