use riscv_mm::page::{
    id_map_range, unmap, virt_to_phys, Entry, EntryBits, MapError, MapRegion, Memory, Table,
};

const HEAP_BASE: u64 = 0x8000_0000;
const PAGE: u64 = 4096;
const RW: u64 = 6;
const RX: u64 = 10;

fn memory_with_root(frames: u64) -> (Memory, usize) {
    let mut mem = Memory::init(HEAP_BASE, frames * PAGE);
    let start = mem.allocator().alloc_start();
    let root_addr = mem.zalloc(1).unwrap();
    let root = ((root_addr - start) / PAGE) as usize;
    (mem, root)
}

#[test]
fn entry_bits_and_methods() {
    assert_eq!(EntryBits::Valid.val(), 1);
    assert_eq!(EntryBits::Read.val(), 2);
    assert_eq!(EntryBits::Write.val(), 4);
    assert_eq!(EntryBits::Execute.val(), 8);
    assert_eq!(EntryBits::Accessed.val(), 64);
    assert_eq!(EntryBits::Dirty.val(), 128);
    assert_eq!(EntryBits::ReadWrite.val(), 6);
    assert_eq!(EntryBits::ReadExecute.val(), 10);
    let mut e = Entry { entry: 0 };
    assert!(e.is_invalid());
    assert!(!e.is_valid());
    assert!(e.is_branch());
    e.set_entry(0x2000_0001);
    assert!(e.is_valid());
    assert!(e.is_branch());
    assert!(!e.is_leaf());
    e.set_entry(e.get_entry() | RW);
    assert!(e.is_leaf());
    assert!(!e.is_branch());
}

#[test]
fn table_len_and_zeroed() {
    assert_eq!(Table::len(), 512);
    let t = Table::zeroed();
    assert_eq!(t.entries.len(), 512);
    assert!(t.entries.iter().all(|e| e.entry == 0));
}

#[test]
fn map_then_probe_round_trips() {
    let (mut mem, root) = memory_with_root(64);
    assert_eq!(riscv_mm::page::map(&mut mem, root, 0x4000_0000, 0x8000_2000, RW, 0), Ok(()));
    assert_eq!(virt_to_phys(&mem, root, 0x4000_0000), Some(0x8000_2000));
    // the whole page maps, offset and all
    assert_eq!(virt_to_phys(&mem, root, 0x4000_0abc), Some(0x8000_2abc));
    // addresses never mapped stay unmapped
    assert_eq!(virt_to_phys(&mem, root, 0x4000_1000), None);
    assert_eq!(virt_to_phys(&mem, root, 0x2000_0000), None);
    assert_eq!(virt_to_phys(&mem, root, 0), None);
}

#[test]
fn map_superpage_level_one() {
    let (mut mem, root) = memory_with_root(64);
    assert_eq!(riscv_mm::page::map(&mut mem, root, 0x4000_0000, 0x8000_0000, RX, 1), Ok(()));
    // one 2MiB leaf: every offset inside translates
    assert_eq!(virt_to_phys(&mem, root, 0x4012_3456), Some(0x8012_3456));
    assert_eq!(virt_to_phys(&mem, root, 0x401F_FFFF), Some(0x801F_FFFF));
    // just past the superpage: unmapped
    assert_eq!(virt_to_phys(&mem, root, 0x4020_0000), None);
}

#[test]
fn map_fails_when_no_frames_left() {
    // a pool of two frames: the root takes one, and a 4KiB mapping needs two
    // more table nodes
    let (mut mem, root) = memory_with_root(2);
    assert_eq!(
        riscv_mm::page::map(&mut mem, root, 0x4000_0000, 0x8000_0000, RW, 0),
        Err(MapError::OutOfMemory)
    );
    // nothing got mapped
    assert_eq!(virt_to_phys(&mem, root, 0x4000_0000), None);
}

#[test]
fn id_map_range_maps_exactly_the_range() {
    let (mut mem, root) = memory_with_root(64);
    assert_eq!(
        id_map_range(&mut mem, root, 0x8000_0000, 0x8000_3000, RW),
        Ok(())
    );
    assert_eq!(virt_to_phys(&mem, root, 0x8000_0000), Some(0x8000_0000));
    assert_eq!(virt_to_phys(&mem, root, 0x8000_1000), Some(0x8000_1000));
    assert_eq!(virt_to_phys(&mem, root, 0x8000_2abc), Some(0x8000_2abc));
    // just below the range and at/above its end: unmapped
    assert_eq!(virt_to_phys(&mem, root, 0x7FFF_F000), None);
    assert_eq!(virt_to_phys(&mem, root, 0x8000_3000), None);
    assert_eq!(virt_to_phys(&mem, root, 0x8000_4000), None);
}

#[test]
fn unmap_reclaims_table_frames() {
    let (mut mem, root) = memory_with_root(64);
    assert_eq!(riscv_mm::page::map(&mut mem, root, 0x4000_0000, 0x8000_2000, RW, 0), Ok(()));
    assert_eq!(riscv_mm::page::map(&mut mem, root, 0x9000_0000, 0x8000_3000, RW, 0), Ok(()));
    // root + two subtrees of two tables each
    assert_eq!(mem.allocator().allocation_report().allocated, 5);
    unmap(&mut mem, root);
    // only the root frame stays allocated
    let rep = mem.allocator().allocation_report();
    assert_eq!(rep.allocated, 1);
    assert_eq!(rep.runs.len(), 1);
    assert_eq!(rep.runs[0].pages, 1);
}

#[test]
fn builder_maps_regions_and_device_page() {
    let mut mem = Memory::init(HEAP_BASE, 64 * PAGE);
    let regions = vec![
        MapRegion { start: 0x8000_0000, end: 0x8000_2000, bits: RX },
        MapRegion { start: 0x8010_0000, end: 0x8010_1000, bits: RW },
    ];
    let info = riscv_mm::page::init(&mut mem, &regions, 0x1000_0000).unwrap();
    assert_eq!(info.satp, (8u64 << 60) | (info.root_addr >> 12));
    assert_eq!(
        virt_to_phys(&mem, info.root, 0x8000_1000),
        Some(0x8000_1000)
    );
    assert_eq!(
        virt_to_phys(&mem, info.root, 0x8010_0aaa),
        Some(0x8010_0aaa)
    );
    assert_eq!(
        virt_to_phys(&mem, info.root, 0x1000_0000),
        Some(0x1000_0000)
    );
    assert_eq!(virt_to_phys(&mem, info.root, 0x9999_9000), None);
    assert_eq!(virt_to_phys(&mem, info.root, 0x8000_2000), None);
}

#[test]
fn builder_fails_without_frames() {
    // one frame: the root takes it and nothing is left for the device page's
    // table nodes
    let mut mem = Memory::init(HEAP_BASE, PAGE);
    let regions: Vec<MapRegion> = Vec::new();
    assert_eq!(
        riscv_mm::page::init(&mut mem, &regions, 0x1000_0000).unwrap_err(),
        MapError::OutOfMemory
    );
}

/// Walks the tables by hand and returns the raw leaf word for `va`, so a
/// test can check the permission bits the library installed.
fn raw_leaf(mem: &Memory, start: u64, root: usize, va: u64) -> u64 {
    let e2 = mem.entry_value(root, ((va >> 30) & 0x1ff) as usize);
    let t1 = (((e2 & !0x3ffu64) << 2) - start) / PAGE;
    let e1 = mem.entry_value(t1 as usize, ((va >> 21) & 0x1ff) as usize);
    let t0 = (((e1 & !0x3ffu64) << 2) - start) / PAGE;
    mem.entry_value(t0 as usize, ((va >> 12) & 0x1ff) as usize)
}

fn packed_leaf(pa: u64, bits: u64) -> u64 {
    (((pa >> 30) & 0x1ff) << 28) | (((pa >> 21) & 0x1ff) << 19) | (((pa >> 12) & 0x1ff) << 10)
        | bits | 1
}

#[test]
fn map_installs_exact_leaf_word() {
    let (mut mem, root) = memory_with_root(64);
    let start = mem.allocator().alloc_start();
    assert_eq!(
        riscv_mm::page::map(&mut mem, root, 0x4000_0000, 0x8000_2000, RW, 0),
        Ok(())
    );
    // the leaf word is the packed page number, the given bits, and Valid --
    // read+write here, nothing else
    assert_eq!(raw_leaf(&mem, start, root, 0x4000_0000), packed_leaf(0x8000_2000, RW));
}

#[test]
fn builder_installs_per_region_permissions() {
    let mut mem = Memory::init(HEAP_BASE, 64 * PAGE);
    let start = mem.allocator().alloc_start();
    let regions = vec![
        MapRegion { start: 0x8000_0000, end: 0x8000_1000, bits: RX },
        MapRegion { start: 0x8010_0000, end: 0x8010_1000, bits: RW },
    ];
    let info = riscv_mm::page::init(&mut mem, &regions, 0x1000_0000).unwrap();
    // execute+read for the code region, read+write for the data region and
    // the device page
    assert_eq!(
        raw_leaf(&mem, start, info.root, 0x8000_0000),
        packed_leaf(0x8000_0000, RX)
    );
    assert_eq!(
        raw_leaf(&mem, start, info.root, 0x8010_0000),
        packed_leaf(0x8010_0000, RW)
    );
    assert_eq!(
        raw_leaf(&mem, start, info.root, 0x1000_0000),
        packed_leaf(0x1000_0000, RW)
    );
}
