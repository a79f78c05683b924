//! Three-level Sv39-style page-table engine and the one-shot address-space
//! builder.
//!
//! A table node is one frame holding 512 eight-byte entries.  An entry with
//! any of Read/Write/Execute set is a leaf; one with only Valid set is a
//! branch pointing at a child table.  The physical page number sits packed in
//! three 9-bit groups from bit 10, mirroring the virtual-address index groups
//! at bits 12, 21 and 30.
//!
//! Physical memory is modelled by [`Memory`]: the frame allocator's
//! descriptors plus the word contents of every frame of the pool, each frame
//! readable as a table of 512 entries.  A branch entry's target is the
//! physical address of the child frame, exactly as the hardware walks it.

use vstd::prelude::*;

use crate::frame::{
    count_free, frame_idx, spec_align_val, lemma_count_free_bounds, lemma_flag_values, last_flag, marked, run_free,
    taken_flag, DeallocError, FrameAllocator, PAGE_SIZE,
};

verus! {

/// Bits of a page-table entry.  `Valid` marks the entry present; any of
/// `Read`, `Write`, `Execute` makes it a leaf.  `ReadWrite` and `ReadExecute`
/// are the two combinations the kernel maps with.
#[derive(Clone, Copy)]
pub enum EntryBits {
    Valid,
    Read,
    Write,
    Execute,
    Accessed,
    Dirty,
    ReadWrite,
    ReadExecute,
}

impl EntryBits {
    pub open spec fn spec_val(self) -> u64 {
        match self {
            EntryBits::Valid => 1,
            EntryBits::Read => 2,
            EntryBits::Write => 4,
            EntryBits::Execute => 8,
            EntryBits::Accessed => 64,
            EntryBits::Dirty => 128,
            EntryBits::ReadWrite => 6,
            EntryBits::ReadExecute => 10,
        }
    }

    pub fn val(self) -> (v: u64)
        ensures
            v == self.spec_val(),
    {
        match self {
            EntryBits::Valid => 1,
            EntryBits::Read => 2,
            EntryBits::Write => 4,
            EntryBits::Execute => 8,
            EntryBits::Accessed => 64,
            EntryBits::Dirty => 128,
            EntryBits::ReadWrite => 6,
            EntryBits::ReadExecute => 10,
        }
    }
}

/// The entry is present.
pub open spec fn e_valid(e: u64) -> bool {
    e & 1 != 0
}

/// The entry maps a page: one of Read/Write/Execute is set.
pub open spec fn e_leaf(e: u64) -> bool {
    e & 0xe != 0
}

/// The entry points at a child table: present but no permission bits.
pub open spec fn e_branch(e: u64) -> bool {
    e_valid(e) && !e_leaf(e)
}

/// Physical address a branch entry points at: the packed page number shifted
/// back into an address.
pub open spec fn e_target(e: u64) -> u64 {
    (e & !0x3ffu64) << 2
}

/// One hardware page-table entry.
pub struct Entry {
    pub entry: u64,
}

impl Entry {
    pub fn is_valid(&self) -> (r: bool)
        ensures
            r == e_valid(self.entry),
    {
        self.get_entry() & EntryBits::Valid.val() != 0
    }

    pub fn is_invalid(&self) -> (r: bool)
        ensures
            r == !e_valid(self.entry),
    {
        !self.is_valid()
    }

    pub fn is_leaf(&self) -> (r: bool)
        ensures
            r == e_leaf(self.entry),
    {
        self.get_entry() & 0xe != 0
    }

    pub fn is_branch(&self) -> (r: bool)
        ensures
            r == !e_leaf(self.entry),
    {
        !self.is_leaf()
    }

    pub fn set_entry(&mut self, entry: u64)
        ensures
            final(self).entry == entry,
    {
        self.entry = entry;
    }

    pub fn get_entry(&self) -> (r: u64)
        ensures
            r == self.entry,
    {
        self.entry
    }
}

/// One table node: 512 entries, one frame.
pub struct Table {
    pub entries: Vec<Entry>,
}

/// Every entry of the table is zero (invalid), as a freshly granted node
/// must be.
pub open spec fn table_zeroed(t: Table) -> bool {
    &&& t.entries@.len() == 512
    &&& forall|k: int| 0 <= k < 512 ==> t.entries@[k].entry == 0
}

impl Table {
    pub fn len() -> (n: usize)
        ensures
            n == 512,
    {
        512
    }

    /// A fresh all-invalid table.
    pub fn zeroed() -> (t: Table)
        ensures
            table_zeroed(t),
    {
        let mut entries: Vec<Entry> = Vec::new();
        let mut i: usize = 0;
        while i < 512
            invariant
                i <= 512,
                entries@.len() == i,
                forall|k: int| 0 <= k < i ==> entries@[k].entry == 0,
            decreases 512 - i,
        {
            entries.push(Entry { entry: 0 });
            i = i + 1;
        }
        Table { entries }
    }
}

/// Virtual-address index group of `va` for level `lvl`: nine bits from bit
/// 12, 21 or 30.
pub open spec fn vpn(va: u64, lvl: int) -> u64 {
    if lvl == 0 {
        (va >> 12) & 0x1ff
    } else if lvl == 1 {
        (va >> 21) & 0x1ff
    } else {
        (va >> 30) & 0x1ff
    }
}

/// Page-offset mask of a leaf found at level `lvl`: 4KiB, 2MiB or 1GiB.
pub open spec fn off_mask(lvl: int) -> u64 {
    if lvl == 0 {
        0xfff
    } else if lvl == 1 {
        0x1f_ffff
    } else {
        0x3fff_ffff
    }
}

/// Physical address a leaf entry translates `va` to at level `lvl`: the
/// entry's page-number fields joined with the page offset of `va`.
pub open spec fn leaf_pa(e: u64, va: u64, lvl: int) -> u64 {
    ((e << 2) & !off_mask(lvl)) | (va & off_mask(lvl))
}

pub proof fn lemma_vpn_bounds(va: u64)
    ensures
        vpn(va, 0) < 512,
        vpn(va, 1) < 512,
        vpn(va, 2) < 512,
{
    assert(((va >> 12) & 0x1ff) < 512 && ((va >> 21) & 0x1ff) < 512 && ((va >> 30) & 0x1ff) < 512)
        by (bit_vector);
}

/// Physical memory: the frame allocator's descriptors and the contents of
/// every frame of the pool, each frame read as a table of 512 entries.
pub struct Memory {
    allocator: FrameAllocator,
    frames: Vec<Table>,
}

impl Memory {
    pub closed spec fn spec_allocator(&self) -> FrameAllocator {
        self.allocator
    }

    pub closed spec fn tables(&self) -> Seq<Table> {
        self.frames@
    }

    pub open spec fn flags(&self) -> Seq<u8> {
        self.spec_allocator().flags()
    }

    pub open spec fn start(&self) -> u64 {
        self.spec_allocator().spec_alloc_start()
    }

    pub open spec fn num_frames(&self) -> int {
        self.spec_allocator().num_frames()
    }

    pub open spec fn inv(&self) -> bool {
        &&& self.spec_allocator().inv()
        &&& self.tables().len() == self.num_frames()
        &&& forall|t: int|
            0 <= t < self.tables().len() ==> (#[trigger] self.tables()[t]).entries@.len() == 512
    }

    /// Entry `k` of the table in frame `t`.
    pub open spec fn entry_at(&self, t: int, k: int) -> u64 {
        self.tables()[t].entries@[k].entry
    }

    /// The address lies on a frame boundary of the managed pool.
    pub open spec fn addr_in_range(&self, a: u64) -> bool {
        &&& a >= self.start()
        &&& (a - self.start()) % 4096 == 0
        &&& frame_idx(self.start(), a) < self.num_frames()
    }

    /// Frame index of an in-range address.
    pub open spec fn table_of(&self, a: u64) -> int {
        frame_idx(self.start(), a)
    }

    /// Physical address of frame `t`.
    pub open spec fn frame_addr(&self, t: int) -> u64 {
        self.spec_allocator().frame_addr(t)
    }

    /// Read access to the allocator, for the diagnostic report.
    pub fn allocator(&self) -> (r: &FrameAllocator)
        ensures
            r == self.spec_allocator(),
    {
        &self.allocator
    }

    /// Sets up the pool: the allocator over `heap_size` bytes at
    /// `heap_start`, with every frame's contents cleared.
    pub fn init(heap_start: u64, heap_size: u64) -> (m: Memory)
        requires
            heap_start <= 0x40_0000_0000_0000,
            heap_size <= 0x40_0000_0000,
        ensures
            m.inv(),
            m.spec_allocator().spec_heap_start() == heap_start,
            m.spec_allocator().spec_heap_size() == heap_size,
            m.num_frames() == heap_size as int / 4096,
            forall|i: int| 0 <= i < m.num_frames() ==> m.flags()[i] == 0,
            forall|t: int| 0 <= t < m.num_frames() ==> table_zeroed(#[trigger] m.tables()[t]),
    {
        let allocator = FrameAllocator::init(heap_start, heap_size);
        let n = allocator.num_pages();
        let mut frames: Vec<Table> = Vec::new();
        let mut i: usize = 0;
        while i < n
            invariant
                i <= n,
                frames@.len() == i,
                forall|t: int| 0 <= t < i ==> table_zeroed(#[trigger] frames@[t]),
            decreases n - i,
        {
            frames.push(Table::zeroed());
            i = i + 1;
        }
        Memory { allocator, frames }
    }
}

impl Memory {
    /// Reads entry `k` of the table in frame `t`: one 8-byte word of
    /// physical memory.
    pub fn entry_value(&self, t: usize, k: usize) -> (e: u64)
        requires
            self.inv(),
            t < self.num_frames(),
            k < 512,
        ensures
            e == self.entry_at(t as int, k as int),
    {
        self.frames[t].entries[k].get_entry()
    }

    /// Overwrites entry `k` of the table in frame `t`.
    fn set_entry_at(&mut self, t: usize, k: usize, e: u64)
        requires
            old(self).inv(),
            t < old(self).num_frames(),
            k < 512,
        ensures
            final(self).inv(),
            final(self).spec_allocator() == old(self).spec_allocator(),
            final(self).tables().len() == old(self).tables().len(),
            forall|u: int|
                0 <= u < old(self).tables().len() && u != t ==> final(self).tables()[u] == old(
                    self,
                ).tables()[u],
            final(self).tables()[t as int].entries@ == old(self).tables()[t as int].entries@.update(
                k as int,
                Entry { entry: e },
            ),
    {
        let tb = &mut self.frames[t];
        tb.entries[k].set_entry(e);
    }

    /// Resolves a branch target to its frame index, or `None` when the
    /// address does not lie on a frame of the pool.
    fn resolve_table(&self, a: u64) -> (r: Option<usize>)
        requires
            self.inv(),
        ensures
            match r {
                Some(t) => self.addr_in_range(a) && t == self.table_of(a) && t
                    < self.num_frames(),
                None => !self.addr_in_range(a),
            },
    {
        let start = self.allocator.alloc_start();
        if a < start {
            return None;
        }
        let off = a - start;
        if off % PAGE_SIZE != 0 {
            return None;
        }
        let idx = off / PAGE_SIZE;
        if idx >= self.frames.len() as u64 {
            return None;
        }
        Some(idx as usize)
    }
}

/// Index group of `va` at `lvl`, as a table index.
fn vpn_index(va: u64, lvl: u64) -> (r: usize)
    requires
        lvl <= 2,
    ensures
        r == vpn(va, lvl as int),
        r < 512,
{
    proof {
        lemma_vpn_bounds(va);
    }
    if lvl == 0 {
        ((va >> 12) & 0x1ff) as usize
    } else if lvl == 1 {
        ((va >> 21) & 0x1ff) as usize
    } else {
        ((va >> 30) & 0x1ff) as usize
    }
}

/// The leaf entry word that the walk for `va` from the table in frame `r`
/// stops at, with the depth it was found at: three levels, ending at the
/// first invalid entry (unmapped) or leaf.  Kept as the whole hardware word,
/// so that a contract can pin the permission bits of an installed leaf.
pub open spec fn walk_leaf(m: Memory, r: int, va: u64) -> Option<(u64, int)> {
    let e2 = m.entry_at(r, vpn(va, 2) as int);
    if !e_valid(e2) {
        None
    } else if e_leaf(e2) {
        Some((e2, 2int))
    } else if !m.addr_in_range(e_target(e2)) {
        None
    } else {
        let t1 = m.table_of(e_target(e2));
        let e1 = m.entry_at(t1, vpn(va, 1) as int);
        if !e_valid(e1) {
            None
        } else if e_leaf(e1) {
            Some((e1, 1int))
        } else if !m.addr_in_range(e_target(e1)) {
            None
        } else {
            let t0 = m.table_of(e_target(e1));
            let e0 = m.entry_at(t0, vpn(va, 0) as int);
            if !e_valid(e0) {
                None
            } else if e_leaf(e0) {
                Some((e0, 0int))
            } else {
                None
            }
        }
    }
}

/// Translation as the hardware would perform it: the physical address the
/// walk's leaf decodes `va` to, or `None` for an unmapped address.
pub open spec fn translate(m: Memory, r: int, va: u64) -> Option<u64> {
    match walk_leaf(m, r, va) {
        None => None,
        Some((e, lvl)) => Some(leaf_pa(e, va, lvl)),
    }
}

// --- the branch structure of a tree rooted at frame `r` ---

/// Entry `k2` of the root is a branch.
pub open spec fn rbranch(m: Memory, r: int, k2: int) -> bool {
    e_branch(m.entry_at(r, k2))
}

/// Target address of root entry `k2`.
pub open spec fn rtarget(m: Memory, r: int, k2: int) -> u64 {
    e_target(m.entry_at(r, k2))
}

/// Frame of the level-1 table under root entry `k2`.
pub open spec fn rchild(m: Memory, r: int, k2: int) -> int {
    m.table_of(rtarget(m, r, k2))
}

/// Entry `k1` of the level-1 table under root entry `k2` is a branch.
pub open spec fn l1branch(m: Memory, r: int, k2: int, k1: int) -> bool {
    rbranch(m, r, k2) && e_branch(m.entry_at(rchild(m, r, k2), k1))
}

/// Target address of that level-1 branch.
pub open spec fn l1target(m: Memory, r: int, k2: int, k1: int) -> u64 {
    e_target(m.entry_at(rchild(m, r, k2), k1))
}

/// Frame of the level-0 table under entries `k2`, `k1`.
pub open spec fn l1child(m: Memory, r: int, k2: int, k1: int) -> int {
    m.table_of(l1target(m, r, k2, k1))
}

/// Frame `t` is allocated as a single-frame run of its own: taken, Last,
/// and not the continuation of a run begun before it.
pub open spec fn taken_last(m: Memory, t: int) -> bool {
    &&& taken_flag(m.flags()[t])
    &&& last_flag(m.flags()[t])
    &&& (t == 0 || !taken_flag(m.flags()[t - 1]) || last_flag(m.flags()[t - 1]))
}

/// Well-formedness of the tree rooted at frame `r`: every branch points at a
/// frame of the pool that is allocated as its own single-frame run; the root
/// is never a child; and no two branches share a child.  This is the
/// invariant that makes a table frame reachable only by its one walk from
/// the root.
pub open spec fn wf_root(m: Memory, r: int) -> bool {
    &&& m.inv()
    &&& 0 <= r < m.num_frames()
    &&& taken_last(m, r)
    &&& (forall|k2: int|
        0 <= k2 < 512 && #[trigger] rbranch(m, r, k2) ==> m.addr_in_range(rtarget(m, r, k2))
            && taken_last(m, rchild(m, r, k2)) && rchild(m, r, k2) != r)
    &&& (forall|k2: int, k1: int|
        0 <= k2 < 512 && 0 <= k1 < 512 && #[trigger] l1branch(m, r, k2, k1) ==> m.addr_in_range(
            l1target(m, r, k2, k1),
        ) && taken_last(m, l1child(m, r, k2, k1)) && l1child(m, r, k2, k1) != r)
    &&& (forall|k2a: int, k2b: int|
        #![trigger rbranch(m, r, k2a), rbranch(m, r, k2b)]
        0 <= k2a < 512 && 0 <= k2b < 512 && k2a != k2b && rbranch(m, r, k2a) && rbranch(m, r, k2b)
            ==> rchild(m, r, k2a) != rchild(m, r, k2b))
    &&& (forall|k2: int, k1: int, k2b: int|
        #![trigger l1branch(m, r, k2, k1), rbranch(m, r, k2b)]
        0 <= k2 < 512 && 0 <= k1 < 512 && 0 <= k2b < 512 && l1branch(m, r, k2, k1) && rbranch(
            m,
            r,
            k2b,
        ) ==> l1child(m, r, k2, k1) != rchild(m, r, k2b))
    &&& (forall|k2a: int, k1a: int, k2b: int, k1b: int|
        #![trigger l1branch(m, r, k2a, k1a), l1branch(m, r, k2b, k1b)]
        0 <= k2a < 512 && 0 <= k1a < 512 && 0 <= k2b < 512 && 0 <= k1b < 512 && l1branch(
            m,
            r,
            k2a,
            k1a,
        ) && l1branch(m, r, k2b, k1b) && (k2a != k2b || k1a != k1b) ==> l1child(m, r, k2a, k1a)
            != l1child(m, r, k2b, k1b))
}

/// No superpage leaf sits above the target level on the walk for `va`: the
/// entry state machine never turns a leaf back into a branch.
pub open spec fn path_ok(m: Memory, r: int, va: u64, lvl: int) -> bool {
    if lvl == 2 {
        true
    } else {
        let e2 = m.entry_at(r, vpn(va, 2) as int);
        if !e_valid(e2) {
            true
        } else if e_leaf(e2) {
            false
        } else if lvl == 1 {
            true
        } else {
            let e1 = m.entry_at(rchild(m, r, vpn(va, 2) as int), vpn(va, 1) as int);
            !e_valid(e1) || !e_leaf(e1)
        }
    }
}

/// How many table nodes mapping `va` at `lvl` must obtain from the
/// allocator: one for each invalid entry above the target level.
pub open spec fn tables_needed(m: Memory, r: int, va: u64, lvl: int) -> int {
    if lvl == 2 {
        0
    } else {
        let e2 = m.entry_at(r, vpn(va, 2) as int);
        if !e_valid(e2) {
            2 - lvl
        } else if lvl == 1 {
            0
        } else {
            let e1 = m.entry_at(rchild(m, r, vpn(va, 2) as int), vpn(va, 1) as int);
            if !e_valid(e1) {
                1int
            } else {
                0int
            }
        }
    }
}

/// `w` lies in the page (of the granularity of `lvl`) that mapping `va` at
/// `lvl` covers.
pub open spec fn same_page(w: u64, va: u64, lvl: int) -> bool {
    &&& vpn(w, 2) == vpn(va, 2)
    &&& (lvl <= 1 ==> vpn(w, 1) == vpn(va, 1))
    &&& (lvl == 0 ==> vpn(w, 0) == vpn(va, 0))
}

/// The leaf entry written for physical address `pa` with permission `bits`:
/// the three packed page-number groups, the bits, and Valid.
pub open spec fn leaf_entry(pa: u64, bits: u64) -> u64 {
    (((pa >> 30) & 0x1ff) << 28) | (((pa >> 21) & 0x1ff) << 19) | (((pa >> 12) & 0x1ff) << 10)
        | bits | 1
}

/// The branch entry pointing at the table frame at address `a`.
pub open spec fn branch_entry(a: u64) -> u64 {
    (a >> 2) | 1
}

pub proof fn lemma_zero_entry()
    ensures
        !e_valid(0u64),
        !e_leaf(0u64),
{
    assert(0u64 & 1 == 0 && 0u64 & 0xe == 0) by (bit_vector);
}

/// What the written leaf decodes to, at each level a probe can find it.
pub proof fn lemma_leaf_entry(pa: u64, bits: u64, w: u64)
    requires
        pa < 0x80_0000_0000,
        bits < 0x400,
    ensures
        e_valid(leaf_entry(pa, bits)),
        bits & 0xe != 0 ==> e_leaf(leaf_entry(pa, bits)),
        leaf_pa(leaf_entry(pa, bits), w, 0) == (pa & !0xfffu64) | (w & 0xfff),
        leaf_pa(leaf_entry(pa, bits), w, 1) == (pa & !0x1f_ffffu64) | (w & 0x1f_ffff),
        leaf_pa(leaf_entry(pa, bits), w, 2) == (pa & !0x3fff_ffffu64) | (w & 0x3fff_ffff),
{
    let e = leaf_entry(pa, bits);
    assert({
        let e2 = (((pa >> 30) & 0x1ff) << 28) | (((pa >> 21) & 0x1ff) << 19) | (((pa >> 12) & 0x1ff)
            << 10) | bits | 1;
        e2 & 1 != 0 && (bits & 0xe != 0 ==> e2 & 0xe != 0) && ((e2 << 2) & !0xfffu64) | (w
            & 0xfff) == (pa & !0xfffu64) | (w & 0xfff) && ((e2 << 2) & !0x1f_ffffu64) | (w
            & 0x1f_ffff) == (pa & !0x1f_ffffu64) | (w & 0x1f_ffff) && ((e2 << 2)
            & !0x3fff_ffffu64) | (w & 0x3fff_ffff) == (pa & !0x3fff_ffffu64) | (w & 0x3fff_ffff)
    }) by (bit_vector)
        requires
            pa < 0x80_0000_0000u64,
            bits < 0x400u64,
    ;
}

/// What the written branch entry decodes to.
pub proof fn lemma_branch_entry(a: u64)
    requires
        a % 4096 == 0,
        a < 0x100_0000_0000_0000,
    ensures
        e_valid(branch_entry(a)),
        !e_leaf(branch_entry(a)),
        e_branch(branch_entry(a)),
        e_target(branch_entry(a)) == a,
{
    assert({
        let e = (a >> 2) | 1;
        e & 1 != 0 && e & 0xe == 0 && ((e & !0x3ffu64) << 2) == a
    }) by (bit_vector)
        requires
            a % 4096 == 0,
            a < 0x100_0000_0000_0000u64,
    ;
}

/// The two states have pools of the same geometry.
pub open spec fn same_shape(m0: Memory, m1: Memory) -> bool {
    &&& m1.start() == m0.start()
    &&& m1.num_frames() == m0.num_frames()
    &&& m1.tables().len() == m0.tables().len()
}

/// Changing the contents of a frame that no branch of the tree reaches
/// leaves every translation unchanged.
pub proof fn lemma_translate_untouched(m0: Memory, m1: Memory, r: int, j: int, va: u64)
    requires
        m0.inv(),
        same_shape(m0, m1),
        forall|t: int| 0 <= t < m0.tables().len() && t != j ==> m1.tables()[t] == m0.tables()[t],
        0 <= r < m0.tables().len(),
        j != r,
        forall|k2: int| 0 <= k2 < 512 && #[trigger] rbranch(m0, r, k2) ==> rchild(m0, r, k2) != j,
        forall|k2: int, k1: int|
            0 <= k2 < 512 && 0 <= k1 < 512 && #[trigger] l1branch(m0, r, k2, k1) ==> l1child(
                m0,
                r,
                k2,
                k1,
            ) != j,
    ensures
        translate(m1, r, va) == translate(m0, r, va),
        walk_leaf(m1, r, va) == walk_leaf(m0, r, va),
{
    lemma_vpn_bounds(va);
    let k2 = vpn(va, 2) as int;
    let k1 = vpn(va, 1) as int;
    assert(m1.tables()[r] == m0.tables()[r]);
    let e2 = m0.entry_at(r, k2);
    if e_valid(e2) && !e_leaf(e2) {
        assert(rbranch(m0, r, k2));
        if m0.addr_in_range(e_target(e2)) {
            let t1 = m0.table_of(e_target(e2));
            assert(rchild(m0, r, k2) == t1);
            assert(0 <= t1 < m0.tables().len()) by {
                let a = e_target(e2);
                assert(a >= m0.start());
                assert((a - m0.start()) / 4096 >= 0) by (nonlinear_arith)
                    requires
                        a >= m0.start(),
                ;
            }
            assert(m1.tables()[t1] == m0.tables()[t1]);
            let e1 = m0.entry_at(t1, k1);
            if e_valid(e1) && !e_leaf(e1) {
                assert(l1branch(m0, r, k2, k1));
                if m0.addr_in_range(e_target(e1)) {
                    let t0 = m0.table_of(e_target(e1));
                    assert(l1child(m0, r, k2, k1) == t0);
                    assert(0 <= t0 < m0.tables().len()) by {
                        let a = e_target(e1);
                        assert(a >= m0.start());
                        assert((a - m0.start()) / 4096 >= 0) by (nonlinear_arith)
                            requires
                                a >= m0.start(),
                        ;
                    }
                    assert(m1.tables()[t0] == m0.tables()[t0]);
                }
            }
        }
    }
}

/// Overwriting one root entry changes no translation whose top index group
/// differs from the written slot.
pub proof fn lemma_translate_root_write(m0: Memory, m1: Memory, r: int, kw: int, va: u64)
    requires
        wf_root(m0, r),
        same_shape(m0, m1),
        forall|t: int| 0 <= t < m0.tables().len() && t != r ==> m1.tables()[t] == m0.tables()[t],
        forall|k: int|
            0 <= k < 512 && k != kw ==> m1.entry_at(r, k) == m0.entry_at(r, k),
        vpn(va, 2) != kw,
    ensures
        translate(m1, r, va) == translate(m0, r, va),
        walk_leaf(m1, r, va) == walk_leaf(m0, r, va),
{
    lemma_vpn_bounds(va);
    let k2 = vpn(va, 2) as int;
    let k1 = vpn(va, 1) as int;
    assert(m1.entry_at(r, k2) == m0.entry_at(r, k2));
    let e2 = m0.entry_at(r, k2);
    if e_valid(e2) && !e_leaf(e2) {
        assert(rbranch(m0, r, k2));
        if m0.addr_in_range(e_target(e2)) {
            let t1 = m0.table_of(e_target(e2));
            assert(rchild(m0, r, k2) == t1);
            assert(t1 != r);
            assert(m1.tables()[t1] == m0.tables()[t1]);
            let e1 = m0.entry_at(t1, k1);
            if e_valid(e1) && !e_leaf(e1) {
                assert(l1branch(m0, r, k2, k1));
                if m0.addr_in_range(e_target(e1)) {
                    let t0 = m0.table_of(e_target(e1));
                    assert(l1child(m0, r, k2, k1) == t0);
                    assert(t0 != r);
                    assert(m1.tables()[t0] == m0.tables()[t0]);
                }
            }
        }
    }
}

/// Overwriting one entry of a level-1 table changes no translation that
/// does not walk through that slot.
pub proof fn lemma_translate_l1_write(
    m0: Memory,
    m1: Memory,
    r: int,
    pk2: int,
    kw: int,
    va: u64,
)
    requires
        wf_root(m0, r),
        same_shape(m0, m1),
        0 <= pk2 < 512,
        rbranch(m0, r, pk2),
        forall|t: int|
            0 <= t < m0.tables().len() && t != rchild(m0, r, pk2) ==> m1.tables()[t]
                == m0.tables()[t],
        forall|k: int|
            0 <= k < 512 && k != kw ==> m1.entry_at(rchild(m0, r, pk2), k) == m0.entry_at(
                rchild(m0, r, pk2),
                k,
            ),
        !(vpn(va, 2) == pk2 && vpn(va, 1) == kw),
    ensures
        translate(m1, r, va) == translate(m0, r, va),
        walk_leaf(m1, r, va) == walk_leaf(m0, r, va),
{
    lemma_vpn_bounds(va);
    let tw = rchild(m0, r, pk2);
    let k2 = vpn(va, 2) as int;
    let k1 = vpn(va, 1) as int;
    assert(tw != r);
    assert(m1.tables()[r] == m0.tables()[r]);
    let e2 = m0.entry_at(r, k2);
    if e_valid(e2) && !e_leaf(e2) {
        assert(rbranch(m0, r, k2));
        if m0.addr_in_range(e_target(e2)) {
            let t1 = m0.table_of(e_target(e2));
            assert(rchild(m0, r, k2) == t1);
            if k2 == pk2 {
                // the walk passes through the written table but a different
                // slot
                assert(m1.entry_at(t1, k1) == m0.entry_at(t1, k1));
            } else {
                assert(t1 != tw);
                assert(m1.tables()[t1] == m0.tables()[t1]);
            }
            let e1 = m0.entry_at(t1, k1);
            if e_valid(e1) && !e_leaf(e1) {
                assert(l1branch(m0, r, k2, k1));
                if m0.addr_in_range(e_target(e1)) {
                    let t0 = m0.table_of(e_target(e1));
                    assert(l1child(m0, r, k2, k1) == t0);
                    assert(t0 != tw);
                    assert(m1.tables()[t0] == m0.tables()[t0]);
                }
            }
        }
    }
}

/// Overwriting one entry of a level-0 table changes no translation that
/// does not walk through that slot.
pub proof fn lemma_translate_l0_write(
    m0: Memory,
    m1: Memory,
    r: int,
    pk2: int,
    pk1: int,
    kw: int,
    va: u64,
)
    requires
        wf_root(m0, r),
        same_shape(m0, m1),
        0 <= pk2 < 512,
        0 <= pk1 < 512,
        l1branch(m0, r, pk2, pk1),
        forall|t: int|
            0 <= t < m0.tables().len() && t != l1child(m0, r, pk2, pk1) ==> m1.tables()[t]
                == m0.tables()[t],
        forall|k: int|
            0 <= k < 512 && k != kw ==> m1.entry_at(l1child(m0, r, pk2, pk1), k) == m0.entry_at(
                l1child(m0, r, pk2, pk1),
                k,
            ),
        !(vpn(va, 2) == pk2 && vpn(va, 1) == pk1 && vpn(va, 0) == kw),
    ensures
        translate(m1, r, va) == translate(m0, r, va),
        walk_leaf(m1, r, va) == walk_leaf(m0, r, va),
{
    lemma_vpn_bounds(va);
    let tw = l1child(m0, r, pk2, pk1);
    let k2 = vpn(va, 2) as int;
    let k1 = vpn(va, 1) as int;
    let k0 = vpn(va, 0) as int;
    assert(tw != r);
    assert(m1.tables()[r] == m0.tables()[r]);
    let e2 = m0.entry_at(r, k2);
    if e_valid(e2) && !e_leaf(e2) {
        assert(rbranch(m0, r, k2));
        if m0.addr_in_range(e_target(e2)) {
            let t1 = m0.table_of(e_target(e2));
            assert(rchild(m0, r, k2) == t1);
            assert(t1 != tw);
            assert(m1.tables()[t1] == m0.tables()[t1]);
            let e1 = m0.entry_at(t1, k1);
            if e_valid(e1) && !e_leaf(e1) {
                assert(l1branch(m0, r, k2, k1));
                if m0.addr_in_range(e_target(e1)) {
                    let t0 = m0.table_of(e_target(e1));
                    assert(l1child(m0, r, k2, k1) == t0);
                    if t0 == tw {
                        // injectivity: same level-0 table means the same walk
                        assert(k2 == pk2 && k1 == pk1);
                        assert(k0 != kw);
                        assert(m1.entry_at(t0, k0) == m0.entry_at(t0, k0));
                    } else {
                        assert(m1.tables()[t0] == m0.tables()[t0]);
                    }
                }
            }
        }
    }
}

/// Well-formedness carries over to a state with the same descriptor flags
/// and the same frame contents.
pub proof fn lemma_wf_same(m0: Memory, m1: Memory, r: int)
    requires
        wf_root(m0, r),
        m1.inv(),
        same_shape(m0, m1),
        m1.flags() == m0.flags(),
        m1.tables() == m0.tables(),
    ensures
        wf_root(m1, r),
{
    assert forall|k2: int| 0 <= k2 < 512 && #[trigger] rbranch(m1, r, k2) implies m1.addr_in_range(
        rtarget(m1, r, k2),
    ) && taken_last(m1, rchild(m1, r, k2)) && rchild(m1, r, k2) != r by {
        assert(m1.entry_at(r, k2) == m0.entry_at(r, k2));
        assert(rbranch(m0, r, k2));
    }
    assert forall|k2: int, k1: int|
        0 <= k2 < 512 && 0 <= k1 < 512 && #[trigger] l1branch(m1, r, k2, k1) implies m1.addr_in_range(
        l1target(m1, r, k2, k1),
    ) && taken_last(m1, l1child(m1, r, k2, k1)) && l1child(m1, r, k2, k1) != r by {
        assert(m1.entry_at(r, k2) == m0.entry_at(r, k2));
        assert(rbranch(m0, r, k2));
        assert(m1.entry_at(rchild(m0, r, k2), k1) == m0.entry_at(rchild(m0, r, k2), k1));
        assert(l1branch(m0, r, k2, k1));
    }
    assert forall|k2a: int, k2b: int|
        #![trigger rbranch(m1, r, k2a), rbranch(m1, r, k2b)]
        0 <= k2a < 512 && 0 <= k2b < 512 && k2a != k2b && rbranch(m1, r, k2a) && rbranch(
        m1,
        r,
        k2b,
    ) implies rchild(m1, r, k2a) != rchild(m1, r, k2b) by {
        assert(m1.entry_at(r, k2a) == m0.entry_at(r, k2a));
        assert(m1.entry_at(r, k2b) == m0.entry_at(r, k2b));
        assert(rbranch(m0, r, k2a) && rbranch(m0, r, k2b));
    }
    assert forall|k2: int, k1: int, k2b: int|
        #![trigger l1branch(m1, r, k2, k1), rbranch(m1, r, k2b)]
        0 <= k2 < 512 && 0 <= k1 < 512 && 0 <= k2b < 512 && l1branch(m1, r, k2, k1) && rbranch(
        m1,
        r,
        k2b,
    ) implies l1child(m1, r, k2, k1) != rchild(m1, r, k2b) by {
        assert(m1.entry_at(r, k2) == m0.entry_at(r, k2));
        assert(m1.entry_at(r, k2b) == m0.entry_at(r, k2b));
        assert(rbranch(m0, r, k2));
        assert(m1.entry_at(rchild(m0, r, k2), k1) == m0.entry_at(rchild(m0, r, k2), k1));
        assert(l1branch(m0, r, k2, k1) && rbranch(m0, r, k2b));
    }
    assert forall|k2a: int, k1a: int, k2b: int, k1b: int|
        #![trigger l1branch(m1, r, k2a, k1a), l1branch(m1, r, k2b, k1b)]
        0 <= k2a < 512 && 0 <= k1a < 512 && 0 <= k2b < 512 && 0 <= k1b < 512 && l1branch(
        m1,
        r,
        k2a,
        k1a,
    ) && l1branch(m1, r, k2b, k1b) && (k2a != k2b || k1a != k1b) implies l1child(m1, r, k2a, k1a)
        != l1child(m1, r, k2b, k1b) by {
        assert(m1.entry_at(r, k2a) == m0.entry_at(r, k2a));
        assert(m1.entry_at(r, k2b) == m0.entry_at(r, k2b));
        assert(rbranch(m0, r, k2a) && rbranch(m0, r, k2b));
        assert(m1.entry_at(rchild(m0, r, k2a), k1a) == m0.entry_at(rchild(m0, r, k2a), k1a));
        assert(m1.entry_at(rchild(m0, r, k2b), k1b) == m0.entry_at(rchild(m0, r, k2b), k1b));
        assert(l1branch(m0, r, k2a, k1a) && l1branch(m0, r, k2b, k1b));
    }
}

/// Well-formedness survives overwriting any single entry with a non-branch
/// value: branches can only disappear.
pub proof fn lemma_wf_nonbranch_write(m0: Memory, m1: Memory, r: int, tw: int, kw: int)
    requires
        wf_root(m0, r),
        m1.inv(),
        same_shape(m0, m1),
        m1.flags() == m0.flags(),
        0 <= tw < m0.tables().len(),
        forall|t: int| 0 <= t < m0.tables().len() && t != tw ==> m1.tables()[t] == m0.tables()[t],
        forall|k: int| 0 <= k < 512 && k != kw ==> m1.entry_at(tw, k) == m0.entry_at(tw, k),
        !e_branch(m1.entry_at(tw, kw)),
    ensures
        wf_root(m1, r),
        forall|k2: int|
            0 <= k2 < 512 && #[trigger] rbranch(m1, r, k2) ==> rbranch(m0, r, k2) && rchild(
                m1,
                r,
                k2,
            ) == rchild(m0, r, k2),
        forall|k2: int, k1: int|
            0 <= k2 < 512 && 0 <= k1 < 512 && #[trigger] l1branch(m1, r, k2, k1) ==> l1branch(
                m0,
                r,
                k2,
                k1,
            ) && l1child(m1, r, k2, k1) == l1child(m0, r, k2, k1),
    {
    assert forall|k2: int| 0 <= k2 < 512 && #[trigger] rbranch(m1, r, k2) implies rbranch(m0, r, k2)
        && rchild(m1, r, k2) == rchild(m0, r, k2) && rtarget(m1, r, k2) == rtarget(m0, r, k2)
        && m1.addr_in_range(rtarget(m1, r, k2)) && taken_last(m1, rchild(m1, r, k2)) && rchild(
        m1,
        r,
        k2,
    ) != r by {
        if r == tw && k2 == kw {
            assert(false);
        } else {
            assert(m1.entry_at(r, k2) == m0.entry_at(r, k2));
            assert(rbranch(m0, r, k2));
        }
    }
    assert forall|k2: int, k1: int|
        0 <= k2 < 512 && 0 <= k1 < 512 && #[trigger] l1branch(m1, r, k2, k1) implies l1branch(
        m0,
        r,
        k2,
        k1,
    ) && l1child(m1, r, k2, k1) == l1child(m0, r, k2, k1) && m1.addr_in_range(
        l1target(m1, r, k2, k1),
    ) && taken_last(m1, l1child(m1, r, k2, k1)) && l1child(m1, r, k2, k1) != r by {
        assert(rbranch(m1, r, k2));
        assert(rbranch(m0, r, k2));
        let c = rchild(m0, r, k2);
        assert(rchild(m1, r, k2) == c);
        if c == tw && k1 == kw {
            assert(!e_branch(m1.entry_at(c, k1)));
            assert(false);
        } else if c == tw {
            assert(m1.entry_at(c, k1) == m0.entry_at(c, k1));
            assert(l1branch(m0, r, k2, k1));
        } else {
            assert(m1.tables()[c] == m0.tables()[c]);
            assert(m1.entry_at(c, k1) == m0.entry_at(c, k1));
            assert(l1branch(m0, r, k2, k1));
        }
    }
    assert forall|k2a: int, k2b: int|
        #![trigger rbranch(m1, r, k2a), rbranch(m1, r, k2b)]
        0 <= k2a < 512 && 0 <= k2b < 512 && k2a != k2b && rbranch(m1, r, k2a) && rbranch(
        m1,
        r,
        k2b,
    ) implies rchild(m1, r, k2a) != rchild(m1, r, k2b) by {
        assert(rbranch(m0, r, k2a) && rbranch(m0, r, k2b));
    }
    assert forall|k2: int, k1: int, k2b: int|
        #![trigger l1branch(m1, r, k2, k1), rbranch(m1, r, k2b)]
        0 <= k2 < 512 && 0 <= k1 < 512 && 0 <= k2b < 512 && l1branch(m1, r, k2, k1) && rbranch(
        m1,
        r,
        k2b,
    ) implies l1child(m1, r, k2, k1) != rchild(m1, r, k2b) by {
        assert(l1branch(m0, r, k2, k1) && rbranch(m0, r, k2b));
    }
    assert forall|k2a: int, k1a: int, k2b: int, k1b: int|
        #![trigger l1branch(m1, r, k2a, k1a), l1branch(m1, r, k2b, k1b)]
        0 <= k2a < 512 && 0 <= k1a < 512 && 0 <= k2b < 512 && 0 <= k1b < 512 && l1branch(
        m1,
        r,
        k2a,
        k1a,
    ) && l1branch(m1, r, k2b, k1b) && (k2a != k2b || k1a != k1b) implies l1child(m1, r, k2a, k1a)
        != l1child(m1, r, k2b, k1b) by {
        assert(l1branch(m0, r, k2a, k1a) && l1branch(m0, r, k2b, k1b));
    }
}

/// Allocating and zeroing a frame that was free touches no part of the
/// tree: well-formedness survives, the branch structure is unchanged, and
/// the fresh frame is no child of it.
pub proof fn lemma_wf_fresh_frame(m0: Memory, m1: Memory, r: int, j: int)
    requires
        wf_root(m0, r),
        m1.inv(),
        same_shape(m0, m1),
        0 <= j < m0.num_frames(),
        !taken_flag(m0.flags()[j]),
        forall|t: int| 0 <= t < m0.tables().len() && t != j ==> m1.tables()[t] == m0.tables()[t],
        forall|t: int| 0 <= t < m0.num_frames() && t != j ==> m1.flags()[t] == m0.flags()[t],
        taken_last(m1, j),
    ensures
        wf_root(m1, r),
        j != r,
        forall|k2: int| 0 <= k2 < 512 && #[trigger] rbranch(m0, r, k2) ==> rchild(m0, r, k2) != j,
        forall|k2: int, k1: int|
            0 <= k2 < 512 && 0 <= k1 < 512 && #[trigger] l1branch(m0, r, k2, k1) ==> l1child(
                m0,
                r,
                k2,
                k1,
            ) != j,
        forall|k2: int|
            0 <= k2 < 512 ==> (#[trigger] rbranch(m1, r, k2) == rbranch(m0, r, k2)) && rchild(
                m1,
                r,
                k2,
            ) == rchild(m0, r, k2),
        forall|k2: int, k1: int|
            0 <= k2 < 512 && 0 <= k1 < 512 ==> (#[trigger] l1branch(m1, r, k2, k1) == l1branch(
                m0,
                r,
                k2,
                k1,
            )) && (l1branch(m0, r, k2, k1) ==> l1child(m1, r, k2, k1) == l1child(m0, r, k2, k1)),
{
    assert(j != r);
    assert forall|k2: int| 0 <= k2 < 512 && #[trigger] rbranch(m0, r, k2) implies rchild(m0, r, k2)
        != j by {
        assert(taken_last(m0, rchild(m0, r, k2)));
    }
    assert forall|k2: int, k1: int|
        0 <= k2 < 512 && 0 <= k1 < 512 && #[trigger] l1branch(m0, r, k2, k1) implies l1child(
        m0,
        r,
        k2,
        k1,
    ) != j by {
        assert(taken_last(m0, l1child(m0, r, k2, k1)));
    }
    assert(m1.tables()[r] == m0.tables()[r]);
    assert forall|k2: int|
        0 <= k2 < 512 implies (#[trigger] rbranch(m1, r, k2) == rbranch(m0, r, k2)) && rchild(
        m1,
        r,
        k2,
    ) == rchild(m0, r, k2) by {
        assert(m1.entry_at(r, k2) == m0.entry_at(r, k2));
    }
    assert forall|k2: int, k1: int|
        0 <= k2 < 512 && 0 <= k1 < 512 implies (#[trigger] l1branch(m1, r, k2, k1) == l1branch(
        m0,
        r,
        k2,
        k1,
    )) && (l1branch(m0, r, k2, k1) ==> l1child(m1, r, k2, k1) == l1child(m0, r, k2, k1)) by {
        assert(m1.entry_at(r, k2) == m0.entry_at(r, k2));
        if rbranch(m0, r, k2) {
            let c = rchild(m0, r, k2);
            assert(c != j);
            assert(m1.tables()[c] == m0.tables()[c]);
            assert(m1.entry_at(c, k1) == m0.entry_at(c, k1));
        }
    }
    assert forall|k2: int| 0 <= k2 < 512 && #[trigger] rbranch(m1, r, k2) implies m1.addr_in_range(
        rtarget(m1, r, k2),
    ) && taken_last(m1, rchild(m1, r, k2)) && rchild(m1, r, k2) != r by {
        assert(rbranch(m0, r, k2));
        assert(rtarget(m1, r, k2) == rtarget(m0, r, k2));
        assert(taken_last(m0, rchild(m0, r, k2)));
        assert(rchild(m0, r, k2) != j);
    }
    assert forall|k2: int, k1: int|
        0 <= k2 < 512 && 0 <= k1 < 512 && #[trigger] l1branch(m1, r, k2, k1) implies m1.addr_in_range(
        l1target(m1, r, k2, k1),
    ) && taken_last(m1, l1child(m1, r, k2, k1)) && l1child(m1, r, k2, k1) != r by {
        assert(l1branch(m0, r, k2, k1));
        let c = rchild(m0, r, k2);
        assert(c != j);
        assert(m1.tables()[c] == m0.tables()[c]);
        assert(l1target(m1, r, k2, k1) == l1target(m0, r, k2, k1));
        assert(taken_last(m0, l1child(m0, r, k2, k1)));
        assert(l1child(m0, r, k2, k1) != j);
    }
    assert(taken_last(m1, r));
}

/// Installing a branch to a fresh zeroed frame into an invalid root slot
/// keeps the tree well-formed.
pub proof fn lemma_wf_root_install(m0: Memory, m1: Memory, r: int, kw: int, j: int)
    requires
        wf_root(m0, r),
        m1.inv(),
        same_shape(m0, m1),
        m1.flags() == m0.flags(),
        0 <= kw < 512,
        0 <= j < m0.num_frames(),
        taken_last(m0, j),
        j != r,
        table_zeroed(m0.tables()[j]),
        forall|k2: int| 0 <= k2 < 512 && #[trigger] rbranch(m0, r, k2) ==> rchild(m0, r, k2) != j,
        forall|k2: int, k1: int|
            0 <= k2 < 512 && 0 <= k1 < 512 && #[trigger] l1branch(m0, r, k2, k1) ==> l1child(
                m0,
                r,
                k2,
                k1,
            ) != j,
        !e_valid(m0.entry_at(r, kw)),
        forall|t: int| 0 <= t < m0.tables().len() && t != r ==> m1.tables()[t] == m0.tables()[t],
        forall|k: int| 0 <= k < 512 && k != kw ==> m1.entry_at(r, k) == m0.entry_at(r, k),
        e_branch(m1.entry_at(r, kw)),
        m1.addr_in_range(e_target(m1.entry_at(r, kw))),
        m1.table_of(e_target(m1.entry_at(r, kw))) == j,
    ensures
        wf_root(m1, r),
        rbranch(m1, r, kw) && rchild(m1, r, kw) == j,
        forall|k2: int|
            0 <= k2 < 512 && k2 != kw ==> (#[trigger] rbranch(m1, r, k2) == rbranch(m0, r, k2))
                && (rbranch(m0, r, k2) ==> rchild(m1, r, k2) == rchild(m0, r, k2)),
{
    lemma_zero_entry();
    assert(rbranch(m1, r, kw) && rchild(m1, r, kw) == j);
    assert forall|k2: int|
        0 <= k2 < 512 && k2 != kw implies (#[trigger] rbranch(m1, r, k2) == rbranch(m0, r, k2)) && (
    rbranch(m0, r, k2) ==> rchild(m1, r, k2) == rchild(m0, r, k2) && rtarget(m1, r, k2) == rtarget(
        m0,
        r,
        k2,
    )) by {
        assert(m1.entry_at(r, k2) == m0.entry_at(r, k2));
    }
    // children of the new branch: the zeroed table has none
    assert(j != r);
    assert(m1.tables()[j] == m0.tables()[j]);
    assert forall|k1: int| 0 <= k1 < 512 implies !e_branch(m1.entry_at(j, k1)) by {
        assert(m1.entry_at(j, k1) == m0.entry_at(j, k1));
        assert(m0.entry_at(j, k1) == 0);
    }
    assert forall|k2: int| 0 <= k2 < 512 && #[trigger] rbranch(m1, r, k2) implies m1.addr_in_range(
        rtarget(m1, r, k2),
    ) && taken_last(m1, rchild(m1, r, k2)) && rchild(m1, r, k2) != r by {
        if k2 != kw {
            assert(rbranch(m0, r, k2));
            assert(taken_last(m0, rchild(m0, r, k2)));
        }
    }
    assert forall|k2: int, k1: int|
        0 <= k2 < 512 && 0 <= k1 < 512 && #[trigger] l1branch(m1, r, k2, k1) implies m1.addr_in_range(
        l1target(m1, r, k2, k1),
    ) && taken_last(m1, l1child(m1, r, k2, k1)) && l1child(m1, r, k2, k1) != r && l1branch(
        m0,
        r,
        k2,
        k1,
    ) && l1child(m1, r, k2, k1) == l1child(m0, r, k2, k1) by {
        if k2 == kw {
            assert(!e_branch(m1.entry_at(j, k1)));
            assert(false);
        } else {
            assert(rbranch(m0, r, k2));
            let c = rchild(m0, r, k2);
            assert(c != j && c != r);
            assert(m1.tables()[c] == m0.tables()[c]);
            assert(m1.entry_at(c, k1) == m0.entry_at(c, k1));
            assert(l1branch(m0, r, k2, k1));
            assert(taken_last(m0, l1child(m0, r, k2, k1)));
        }
    }
    assert forall|k2a: int, k2b: int|
        #![trigger rbranch(m1, r, k2a), rbranch(m1, r, k2b)]
        0 <= k2a < 512 && 0 <= k2b < 512 && k2a != k2b && rbranch(m1, r, k2a) && rbranch(
        m1,
        r,
        k2b,
    ) implies rchild(m1, r, k2a) != rchild(m1, r, k2b) by {
        if k2a == kw {
            assert(rbranch(m0, r, k2b));
            assert(rchild(m0, r, k2b) != j);
        } else if k2b == kw {
            assert(rbranch(m0, r, k2a));
            assert(rchild(m0, r, k2a) != j);
        } else {
            assert(rbranch(m0, r, k2a) && rbranch(m0, r, k2b));
        }
    }
    assert forall|k2: int, k1: int, k2b: int|
        #![trigger l1branch(m1, r, k2, k1), rbranch(m1, r, k2b)]
        0 <= k2 < 512 && 0 <= k1 < 512 && 0 <= k2b < 512 && l1branch(m1, r, k2, k1) && rbranch(
        m1,
        r,
        k2b,
    ) implies l1child(m1, r, k2, k1) != rchild(m1, r, k2b) by {
        assert(l1branch(m0, r, k2, k1));
        if k2b == kw {
            assert(l1child(m0, r, k2, k1) != j);
        } else {
            assert(rbranch(m0, r, k2b));
        }
    }
    assert forall|k2a: int, k1a: int, k2b: int, k1b: int|
        #![trigger l1branch(m1, r, k2a, k1a), l1branch(m1, r, k2b, k1b)]
        0 <= k2a < 512 && 0 <= k1a < 512 && 0 <= k2b < 512 && 0 <= k1b < 512 && l1branch(
        m1,
        r,
        k2a,
        k1a,
    ) && l1branch(m1, r, k2b, k1b) && (k2a != k2b || k1a != k1b) implies l1child(m1, r, k2a, k1a)
        != l1child(m1, r, k2b, k1b) by {
        assert(l1branch(m0, r, k2a, k1a) && l1branch(m0, r, k2b, k1b));
    }
}

/// Installing a branch to a fresh zeroed frame into an invalid slot of a
/// level-1 table keeps the tree well-formed.
pub proof fn lemma_wf_l1_install(m0: Memory, m1: Memory, r: int, pk2: int, kw: int, j: int)
    requires
        wf_root(m0, r),
        m1.inv(),
        same_shape(m0, m1),
        m1.flags() == m0.flags(),
        0 <= pk2 < 512,
        0 <= kw < 512,
        rbranch(m0, r, pk2),
        0 <= j < m0.num_frames(),
        taken_last(m0, j),
        j != r,
        j != rchild(m0, r, pk2),
        table_zeroed(m0.tables()[j]),
        forall|k2: int| 0 <= k2 < 512 && #[trigger] rbranch(m0, r, k2) ==> rchild(m0, r, k2) != j,
        forall|k2: int, k1: int|
            0 <= k2 < 512 && 0 <= k1 < 512 && #[trigger] l1branch(m0, r, k2, k1) ==> l1child(
                m0,
                r,
                k2,
                k1,
            ) != j,
        !e_valid(m0.entry_at(rchild(m0, r, pk2), kw)),
        forall|t: int|
            0 <= t < m0.tables().len() && t != rchild(m0, r, pk2) ==> m1.tables()[t]
                == m0.tables()[t],
        forall|k: int|
            0 <= k < 512 && k != kw ==> m1.entry_at(rchild(m0, r, pk2), k) == m0.entry_at(
                rchild(m0, r, pk2),
                k,
            ),
        e_branch(m1.entry_at(rchild(m0, r, pk2), kw)),
        m1.addr_in_range(e_target(m1.entry_at(rchild(m0, r, pk2), kw))),
        m1.table_of(e_target(m1.entry_at(rchild(m0, r, pk2), kw))) == j,
    ensures
        wf_root(m1, r),
        l1branch(m1, r, pk2, kw) && l1child(m1, r, pk2, kw) == j,
{
    lemma_zero_entry();
    let tw = rchild(m0, r, pk2);
    assert(tw != r);
    assert(m1.tables()[r] == m0.tables()[r]);
    // the root's branch structure is untouched
    assert forall|k2: int|
        0 <= k2 < 512 implies (#[trigger] rbranch(m1, r, k2) == rbranch(m0, r, k2)) && (rbranch(
        m0,
        r,
        k2,
    ) ==> rchild(m1, r, k2) == rchild(m0, r, k2) && rtarget(m1, r, k2) == rtarget(m0, r, k2)) by {
        assert(m1.entry_at(r, k2) == m0.entry_at(r, k2));
    }
    assert(l1branch(m1, r, pk2, kw) && l1child(m1, r, pk2, kw) == j);
    // the fresh table has no branches
    assert(j != tw);
    assert(m1.tables()[j] == m0.tables()[j]);
    assert forall|k2: int| 0 <= k2 < 512 && #[trigger] rbranch(m1, r, k2) implies m1.addr_in_range(
        rtarget(m1, r, k2),
    ) && taken_last(m1, rchild(m1, r, k2)) && rchild(m1, r, k2) != r by {
        assert(rbranch(m0, r, k2));
        assert(taken_last(m0, rchild(m0, r, k2)));
    }
    assert forall|k2: int, k1: int|
        0 <= k2 < 512 && 0 <= k1 < 512 && (k2 != pk2 || k1 != kw) implies (#[trigger] l1branch(
        m1,
        r,
        k2,
        k1,
    ) == l1branch(m0, r, k2, k1)) && (l1branch(m0, r, k2, k1) ==> l1child(m1, r, k2, k1) == l1child(
        m0,
        r,
        k2,
        k1,
    ) && l1target(m1, r, k2, k1) == l1target(m0, r, k2, k1)) by {
        if rbranch(m0, r, k2) {
            let c = rchild(m0, r, k2);
            assert(rchild(m1, r, k2) == c);
            if c == tw {
                assert(k2 == pk2);
                assert(k1 != kw);
                assert(m1.entry_at(c, k1) == m0.entry_at(c, k1));
            } else {
                assert(m1.tables()[c] == m0.tables()[c]);
                assert(m1.entry_at(c, k1) == m0.entry_at(c, k1));
            }
        }
    }
    assert forall|k2: int, k1: int|
        0 <= k2 < 512 && 0 <= k1 < 512 && #[trigger] l1branch(m1, r, k2, k1) implies m1.addr_in_range(
        l1target(m1, r, k2, k1),
    ) && taken_last(m1, l1child(m1, r, k2, k1)) && l1child(m1, r, k2, k1) != r by {
        if k2 == pk2 && k1 == kw {
            assert(l1child(m1, r, k2, k1) == j);
            assert(taken_last(m0, j));
            assert(j != r);
        } else {
            assert(l1branch(m0, r, k2, k1));
            assert(taken_last(m0, l1child(m0, r, k2, k1)));
        }
    }
    assert forall|k2: int, k1: int, k2b: int|
        #![trigger l1branch(m1, r, k2, k1), rbranch(m1, r, k2b)]
        0 <= k2 < 512 && 0 <= k1 < 512 && 0 <= k2b < 512 && l1branch(m1, r, k2, k1) && rbranch(
        m1,
        r,
        k2b,
    ) implies l1child(m1, r, k2, k1) != rchild(m1, r, k2b) by {
        assert(rbranch(m0, r, k2b));
        if k2 == pk2 && k1 == kw {
            assert(rchild(m0, r, k2b) != j);
        } else {
            assert(l1branch(m0, r, k2, k1));
        }
    }
    assert forall|k2a: int, k1a: int, k2b: int, k1b: int|
        #![trigger l1branch(m1, r, k2a, k1a), l1branch(m1, r, k2b, k1b)]
        0 <= k2a < 512 && 0 <= k1a < 512 && 0 <= k2b < 512 && 0 <= k1b < 512 && l1branch(
        m1,
        r,
        k2a,
        k1a,
    ) && l1branch(m1, r, k2b, k1b) && (k2a != k2b || k1a != k1b) implies l1child(m1, r, k2a, k1a)
        != l1child(m1, r, k2b, k1b) by {
        if k2a == pk2 && k1a == kw {
            assert(l1branch(m0, r, k2b, k1b));
            assert(l1child(m0, r, k2b, k1b) != j);
        } else if k2b == pk2 && k1b == kw {
            assert(l1branch(m0, r, k2a, k1a));
            assert(l1child(m0, r, k2a, k1a) != j);
        } else {
            assert(l1branch(m0, r, k2a, k1a) && l1branch(m0, r, k2b, k1b));
        }
    }
}

/// Read-only translation probe: descends from the table in frame `root`,
/// returning the physical address a leaf maps `vaddr` to, or `None` for an
/// unmapped address.
pub fn virt_to_phys(mem: &Memory, root: usize, vaddr: u64) -> (r: Option<u64>)
    requires
        mem.inv(),
        root < mem.num_frames(),
    ensures
        r == translate(*mem, root as int, vaddr),
{
    let e2 = mem.entry_value(root, vpn_index(vaddr, 2));
    if e2 & 1 == 0 {
        return None;
    }
    if e2 & 0xe != 0 {
        return Some(((e2 << 2) & !0x3fff_ffffu64) | (vaddr & 0x3fff_ffff));
    }
    let t1 = match mem.resolve_table((e2 & !0x3ffu64) << 2) {
        Some(t) => t,
        None => {
            return None;
        },
    };
    let e1 = mem.entry_value(t1, vpn_index(vaddr, 1));
    if e1 & 1 == 0 {
        return None;
    }
    if e1 & 0xe != 0 {
        return Some(((e1 << 2) & !0x1f_ffffu64) | (vaddr & 0x1f_ffff));
    }
    let t0 = match mem.resolve_table((e1 & !0x3ffu64) << 2) {
        Some(t) => t,
        None => {
            return None;
        },
    };
    let e0 = mem.entry_value(t0, vpn_index(vaddr, 0));
    if e0 & 1 == 0 {
        return None;
    }
    if e0 & 0xe != 0 {
        return Some(((e0 << 2) & !0xfffu64) | (vaddr & 0xfff));
    }
    None
}


/// After the 1GiB leaf write at the root, the mapped superpage translates
/// to the target page carrying exactly the written word, and everything else
/// is as it was before.
proof fn lemma_map_finish_l2(
    m0: Memory,
    m_f: Memory,
    rr: int,
    vaddr: u64,
    paddr: u64,
    bits: u64,
)
    requires
        paddr < 0x80_0000_0000,
        bits & 0xe != 0,
        bits < 0x400,
        wf_root(m0, rr),
        same_shape(m0, m_f),
        forall|t: int|
            0 <= t < m0.tables().len() && t != rr ==> m_f.tables()[t] == m0.tables()[t],
        forall|k: int|
            0 <= k < 512 && k != vpn(vaddr, 2) as int ==> m_f.entry_at(rr, k) == m0.entry_at(
                rr,
                k,
            ),
        m_f.entry_at(rr, vpn(vaddr, 2) as int) == leaf_entry(paddr, bits),
    ensures
        forall|w: u64|
            #![trigger translate(m_f, rr, w)]
            #![trigger walk_leaf(m_f, rr, w)]
            same_page(w, vaddr, 2) ==> translate(m_f, rr, w) == Some(
                (paddr & !off_mask(2)) | (w & off_mask(2)),
            ) && walk_leaf(m_f, rr, w) == Some((leaf_entry(paddr, bits), 2int)),
        forall|w: u64|
            #![trigger translate(m_f, rr, w)]
            #![trigger walk_leaf(m_f, rr, w)]
            !same_page(w, vaddr, 2) ==> translate(m_f, rr, w) == translate(m0, rr, w)
                && walk_leaf(m_f, rr, w) == walk_leaf(m0, rr, w),
{
    lemma_vpn_bounds(vaddr);
    assert forall|w: u64| same_page(w, vaddr, 2) implies #[trigger] translate(m_f, rr, w) == Some(
        (paddr & !off_mask(2)) | (w & off_mask(2)),
    ) && walk_leaf(m_f, rr, w) == Some((leaf_entry(paddr, bits), 2int)) by {
        lemma_vpn_bounds(w);
        assert(m_f.entry_at(rr, vpn(w, 2) as int) == leaf_entry(paddr, bits));
        lemma_leaf_entry(paddr, bits, w);
    }
    assert forall|w: u64| !same_page(w, vaddr, 2) implies #[trigger] translate(m_f, rr, w)
        == translate(m0, rr, w) && walk_leaf(m_f, rr, w) == walk_leaf(m0, rr, w) by {
        lemma_vpn_bounds(w);
        lemma_translate_root_write(m0, m_f, rr, vpn(vaddr, 2) as int, w);
    }
}

/// After the 2MiB leaf write, the mapped superpage translates to the target
/// page carrying exactly the written word, and everything else is as it was
/// before the whole mapping began.
proof fn lemma_map_finish_l1(
    m0: Memory,
    m_pre: Memory,
    m_f: Memory,
    rr: int,
    vaddr: u64,
    paddr: u64,
    bits: u64,
    t1: int,
)
    requires
        paddr < 0x80_0000_0000,
        bits & 0xe != 0,
        bits < 0x400,
        wf_root(m_pre, rr),
        rbranch(m_pre, rr, vpn(vaddr, 2) as int),
        rchild(m_pre, rr, vpn(vaddr, 2) as int) == t1,
        forall|w: u64| #[trigger] translate(m_pre, rr, w) == translate(m0, rr, w),
        forall|w: u64| #[trigger] walk_leaf(m_pre, rr, w) == walk_leaf(m0, rr, w),
        same_shape(m_pre, m_f),
        forall|t: int|
            0 <= t < m_pre.tables().len() && t != t1 ==> m_f.tables()[t] == m_pre.tables()[t],
        forall|k: int|
            0 <= k < 512 && k != vpn(vaddr, 1) as int ==> m_f.entry_at(t1, k) == m_pre.entry_at(
                t1,
                k,
            ),
        m_f.entry_at(t1, vpn(vaddr, 1) as int) == leaf_entry(paddr, bits),
    ensures
        forall|w: u64|
            #![trigger translate(m_f, rr, w)]
            #![trigger walk_leaf(m_f, rr, w)]
            same_page(w, vaddr, 1) ==> translate(m_f, rr, w) == Some(
                (paddr & !off_mask(1)) | (w & off_mask(1)),
            ) && walk_leaf(m_f, rr, w) == Some((leaf_entry(paddr, bits), 1int)),
        forall|w: u64|
            #![trigger translate(m_f, rr, w)]
            #![trigger walk_leaf(m_f, rr, w)]
            !same_page(w, vaddr, 1) ==> translate(m_f, rr, w) == translate(m0, rr, w)
                && walk_leaf(m_f, rr, w) == walk_leaf(m0, rr, w),
{
    let k2 = vpn(vaddr, 2) as int;
    let k1 = vpn(vaddr, 1) as int;
    lemma_vpn_bounds(vaddr);
    assert(t1 != rr);
    assert(m_f.tables()[rr] == m_pre.tables()[rr]);
    assert(rbranch(m_f, rr, k2) && rchild(m_f, rr, k2) == t1);
    assert forall|w: u64| same_page(w, vaddr, 1) implies #[trigger] translate(m_f, rr, w) == Some(
        (paddr & !off_mask(1)) | (w & off_mask(1)),
    ) && walk_leaf(m_f, rr, w) == Some((leaf_entry(paddr, bits), 1int)) by {
        lemma_vpn_bounds(w);
        assert(vpn(w, 2) == vpn(vaddr, 2) && vpn(w, 1) == vpn(vaddr, 1));
        assert(e_branch(m_f.entry_at(rr, vpn(w, 2) as int)));
        assert(m_f.addr_in_range(rtarget(m_f, rr, k2)));
        assert(m_f.entry_at(t1, vpn(w, 1) as int) == leaf_entry(paddr, bits));
        lemma_leaf_entry(paddr, bits, w);
    }
    assert forall|w: u64| !same_page(w, vaddr, 1) implies #[trigger] translate(m_f, rr, w)
        == translate(m0, rr, w) && walk_leaf(m_f, rr, w) == walk_leaf(m0, rr, w) by {
        lemma_vpn_bounds(w);
        lemma_translate_l1_write(m_pre, m_f, rr, k2, k1, w);
    }
}

/// After the 4KiB leaf write, the mapped page translates to the target page
/// carrying exactly the written word, and everything else is as it was
/// before the whole mapping began.
proof fn lemma_map_finish_l0(
    m0: Memory,
    m_pre: Memory,
    m_f: Memory,
    rr: int,
    vaddr: u64,
    paddr: u64,
    bits: u64,
    t1: int,
    t0: int,
)
    requires
        paddr < 0x80_0000_0000,
        bits & 0xe != 0,
        bits < 0x400,
        wf_root(m_pre, rr),
        rbranch(m_pre, rr, vpn(vaddr, 2) as int),
        rchild(m_pre, rr, vpn(vaddr, 2) as int) == t1,
        l1branch(m_pre, rr, vpn(vaddr, 2) as int, vpn(vaddr, 1) as int),
        l1child(m_pre, rr, vpn(vaddr, 2) as int, vpn(vaddr, 1) as int) == t0,
        forall|w: u64| #[trigger] translate(m_pre, rr, w) == translate(m0, rr, w),
        forall|w: u64| #[trigger] walk_leaf(m_pre, rr, w) == walk_leaf(m0, rr, w),
        same_shape(m_pre, m_f),
        forall|t: int|
            0 <= t < m_pre.tables().len() && t != t0 ==> m_f.tables()[t] == m_pre.tables()[t],
        forall|k: int|
            0 <= k < 512 && k != vpn(vaddr, 0) as int ==> m_f.entry_at(t0, k) == m_pre.entry_at(
                t0,
                k,
            ),
        m_f.entry_at(t0, vpn(vaddr, 0) as int) == leaf_entry(paddr, bits),
    ensures
        forall|w: u64|
            #![trigger translate(m_f, rr, w)]
            #![trigger walk_leaf(m_f, rr, w)]
            same_page(w, vaddr, 0) ==> translate(m_f, rr, w) == Some(
                (paddr & !off_mask(0)) | (w & off_mask(0)),
            ) && walk_leaf(m_f, rr, w) == Some((leaf_entry(paddr, bits), 0int)),
        forall|w: u64|
            #![trigger translate(m_f, rr, w)]
            #![trigger walk_leaf(m_f, rr, w)]
            !same_page(w, vaddr, 0) ==> translate(m_f, rr, w) == translate(m0, rr, w)
                && walk_leaf(m_f, rr, w) == walk_leaf(m0, rr, w),
{
    let k2 = vpn(vaddr, 2) as int;
    let k1 = vpn(vaddr, 1) as int;
    let k0 = vpn(vaddr, 0) as int;
    lemma_vpn_bounds(vaddr);
    assert(t0 != rr);
    assert(t0 != t1);
    assert(m_f.tables()[rr] == m_pre.tables()[rr]);
    assert(m_f.tables()[t1] == m_pre.tables()[t1]);
    assert(rbranch(m_f, rr, k2) && rchild(m_f, rr, k2) == t1);
    assert(l1branch(m_f, rr, k2, k1) && l1child(m_f, rr, k2, k1) == t0);
    assert forall|w: u64| same_page(w, vaddr, 0) implies #[trigger] translate(m_f, rr, w) == Some(
        (paddr & !off_mask(0)) | (w & off_mask(0)),
    ) && walk_leaf(m_f, rr, w) == Some((leaf_entry(paddr, bits), 0int)) by {
        lemma_vpn_bounds(w);
        assert(vpn(w, 2) == vpn(vaddr, 2) && vpn(w, 1) == vpn(vaddr, 1) && vpn(w, 0) == vpn(
            vaddr,
            0,
        ));
        assert(e_branch(m_f.entry_at(rr, vpn(w, 2) as int)));
        assert(m_f.addr_in_range(rtarget(m_f, rr, k2)));
        assert(e_branch(m_f.entry_at(t1, vpn(w, 1) as int)));
        assert(m_f.addr_in_range(l1target(m_f, rr, k2, k1)));
        assert(m_f.entry_at(t0, vpn(w, 0) as int) == leaf_entry(paddr, bits));
        lemma_leaf_entry(paddr, bits, w);
    }
    assert forall|w: u64| !same_page(w, vaddr, 0) implies #[trigger] translate(m_f, rr, w)
        == translate(m0, rr, w) && walk_leaf(m_f, rr, w) == walk_leaf(m0, rr, w) by {
        lemma_vpn_bounds(w);
        lemma_translate_l0_write(m_pre, m_f, rr, k2, k1, k0, w);
    }
}


/// Granting a fresh zeroed frame and installing it as a branch in an
/// invalid root slot: the tree stays well-formed with the new (empty) child
/// in place, and no translation moves.
proof fn lemma_map_install_root(
    m0: Memory,
    m_a: Memory,
    m_b: Memory,
    rr: int,
    k2: int,
    j: int,
    a: u64,
)
    requires
        wf_root(m0, rr),
        0 <= k2 < 512,
        !e_valid(m0.entry_at(rr, k2)),
        // the zalloc step: frame j was free, is now its own run, zeroed
        m_a.inv(),
        same_shape(m0, m_a),
        0 <= j < m0.num_frames(),
        !taken_flag(m0.flags()[j]),
        forall|t: int| 0 <= t < m0.tables().len() && t != j ==> m_a.tables()[t] == m0.tables()[t],
        forall|t: int| 0 <= t < m0.num_frames() && t != j ==> m_a.flags()[t] == m0.flags()[t],
        taken_last(m_a, j),
        table_zeroed(m_a.tables()[j]),
        a % 4096 == 0,
        a < 0x100_0000_0000_0000,
        m_a.addr_in_range(a),
        m_a.table_of(a) == j,
        // the install step: only the root slot changed, to the branch word
        m_b.inv(),
        same_shape(m_a, m_b),
        m_b.flags() == m_a.flags(),
        forall|t: int| 0 <= t < m_a.tables().len() && t != rr ==> m_b.tables()[t] == m_a.tables()[t],
        forall|k: int| 0 <= k < 512 && k != k2 ==> m_b.entry_at(rr, k) == m_a.entry_at(rr, k),
        m_b.entry_at(rr, k2) == branch_entry(a),
    ensures
        wf_root(m_b, rr),
        rbranch(m_b, rr, k2) && rchild(m_b, rr, k2) == j,
        table_zeroed(m_b.tables()[j]),
        forall|w: u64|
            #![trigger translate(m_b, rr, w)]
            #![trigger walk_leaf(m_b, rr, w)]
            translate(m_b, rr, w) == translate(m0, rr, w) && walk_leaf(m_b, rr, w) == walk_leaf(
                m0,
                rr,
                w,
            ),
{
    lemma_branch_entry(a);
    lemma_wf_fresh_frame(m0, m_a, rr, j);
    assert forall|w: u64|
        #[trigger] translate(m_a, rr, w) == translate(m0, rr, w) && walk_leaf(m_a, rr, w)
            == walk_leaf(m0, rr, w) by {
        lemma_translate_untouched(m0, m_a, rr, j, w);
    }
    assert(j != rr);
    assert(m_a.tables()[rr] == m0.tables()[rr]);
    assert(!e_valid(m_a.entry_at(rr, k2)));
    assert(m_b.addr_in_range(a) && m_b.table_of(a) == j);
    lemma_wf_root_install(m_a, m_b, rr, k2, j);
    assert(m_b.tables()[j] == m_a.tables()[j]);
    assert forall|w: u64|
        #[trigger] translate(m_b, rr, w) == translate(m0, rr, w) && walk_leaf(m_b, rr, w)
            == walk_leaf(m0, rr, w) by {
        lemma_vpn_bounds(w);
        if vpn(w, 2) == k2 as u64 {
            lemma_zero_entry();
            assert(!e_valid(m0.entry_at(rr, vpn(w, 2) as int)));
            assert(translate(m0, rr, w) is None);
            assert(walk_leaf(m0, rr, w) is None);
            assert(m_b.entry_at(j, vpn(w, 1) as int) == 0);
            assert(translate(m_b, rr, w) is None);
            assert(walk_leaf(m_b, rr, w) is None);
        } else {
            lemma_translate_root_write(m_a, m_b, rr, k2, w);
        }
    }
}

/// Granting a fresh zeroed frame and installing it as a branch in an
/// invalid level-1 slot: the tree stays well-formed, the path to the new
/// (empty) level-0 table stands, and no translation moves.
proof fn lemma_map_install_l1(
    m1s: Memory,
    m_c: Memory,
    m_d: Memory,
    rr: int,
    k2: int,
    k1: int,
    t1: int,
    j2: int,
    a2: u64,
)
    requires
        wf_root(m1s, rr),
        0 <= k2 < 512,
        0 <= k1 < 512,
        rbranch(m1s, rr, k2),
        rchild(m1s, rr, k2) == t1,
        !e_valid(m1s.entry_at(t1, k1)),
        // the zalloc step
        m_c.inv(),
        same_shape(m1s, m_c),
        0 <= j2 < m1s.num_frames(),
        !taken_flag(m1s.flags()[j2]),
        forall|t: int|
            0 <= t < m1s.tables().len() && t != j2 ==> m_c.tables()[t] == m1s.tables()[t],
        forall|t: int| 0 <= t < m1s.num_frames() && t != j2 ==> m_c.flags()[t] == m1s.flags()[t],
        taken_last(m_c, j2),
        table_zeroed(m_c.tables()[j2]),
        a2 % 4096 == 0,
        a2 < 0x100_0000_0000_0000,
        m_c.addr_in_range(a2),
        m_c.table_of(a2) == j2,
        // the install step: only the level-1 slot changed
        m_d.inv(),
        same_shape(m_c, m_d),
        m_d.flags() == m_c.flags(),
        forall|t: int| 0 <= t < m_c.tables().len() && t != t1 ==> m_d.tables()[t] == m_c.tables()[t],
        forall|k: int| 0 <= k < 512 && k != k1 ==> m_d.entry_at(t1, k) == m_c.entry_at(t1, k),
        m_d.entry_at(t1, k1) == branch_entry(a2),
    ensures
        wf_root(m_d, rr),
        rbranch(m_d, rr, k2) && rchild(m_d, rr, k2) == t1,
        l1branch(m_d, rr, k2, k1) && l1child(m_d, rr, k2, k1) == j2,
        forall|w: u64|
            #![trigger translate(m_d, rr, w)]
            #![trigger walk_leaf(m_d, rr, w)]
            translate(m_d, rr, w) == translate(m1s, rr, w) && walk_leaf(m_d, rr, w) == walk_leaf(
                m1s,
                rr,
                w,
            ),
{
    lemma_branch_entry(a2);
    lemma_wf_fresh_frame(m1s, m_c, rr, j2);
    assert forall|w: u64|
        #[trigger] translate(m_c, rr, w) == translate(m1s, rr, w) && walk_leaf(m_c, rr, w)
            == walk_leaf(m1s, rr, w) by {
        lemma_translate_untouched(m1s, m_c, rr, j2, w);
    }
    // the branch structure survived the fresh frame
    assert(rbranch(m_c, rr, k2) && rchild(m_c, rr, k2) == t1);
    assert(j2 != rr);
    assert(t1 != rr && t1 != j2);
    assert(m_c.tables()[t1] == m1s.tables()[t1]);
    assert(!e_valid(m_c.entry_at(t1, k1)));
    // freshness facts, in the state the install starts from
    assert forall|k2x: int| 0 <= k2x < 512 && #[trigger] rbranch(m_c, rr, k2x) implies rchild(
        m_c,
        rr,
        k2x,
    ) != j2 by {
        assert(rbranch(m1s, rr, k2x));
        assert(rchild(m1s, rr, k2x) == rchild(m_c, rr, k2x));
    }
    assert forall|k2x: int, k1x: int|
        0 <= k2x < 512 && 0 <= k1x < 512 && #[trigger] l1branch(m_c, rr, k2x, k1x) implies l1child(
        m_c,
        rr,
        k2x,
        k1x,
    ) != j2 by {
        assert(l1branch(m1s, rr, k2x, k1x));
        assert(l1child(m1s, rr, k2x, k1x) == l1child(m_c, rr, k2x, k1x));
    }
    assert(m_d.addr_in_range(a2) && m_d.table_of(a2) == j2);
    lemma_wf_l1_install(m_c, m_d, rr, k2, k1, j2);
    assert(m_d.tables()[rr] == m_c.tables()[rr]);
    assert(rbranch(m_d, rr, k2) && rchild(m_d, rr, k2) == t1);
    assert(m_d.tables()[j2] == m_c.tables()[j2]);
    assert forall|w: u64|
        #[trigger] translate(m_d, rr, w) == translate(m1s, rr, w) && walk_leaf(m_d, rr, w)
            == walk_leaf(m1s, rr, w) by {
        lemma_vpn_bounds(w);
        if vpn(w, 2) == k2 as u64 && vpn(w, 1) == k1 as u64 {
            lemma_zero_entry();
            // before: the walk died at the invalid level-1 slot; after: it
            // dies in the zeroed table
            assert(m_d.entry_at(j2, vpn(w, 0) as int) == 0);
            assert(translate(m_d, rr, w) is None);
            assert(walk_leaf(m_d, rr, w) is None);
            assert(translate(m_c, rr, w) is None);
            assert(walk_leaf(m_c, rr, w) is None);
        } else {
            lemma_translate_l1_write(m_c, m_d, rr, k2, k1, w);
        }
    }
}

/// Mapping can fail only for want of frames for table nodes: an explicit,
/// recoverable no-memory result.
#[derive(Clone, Copy, PartialEq, Eq, Structural, Debug)]
pub enum MapError {
    OutOfMemory,
}

/// Maps `vaddr` to `paddr` with permission `bits` at `level` (0 the 4KiB
/// page, 1 and 2 the super-pages), walking down from the table in frame
/// `root` and obtaining any missing intermediate table from the allocator as
/// a fresh zeroed frame.
///
/// On success the whole page around `vaddr` translates to the page of
/// `paddr`, the installed entry is exactly the packed page number joined
/// with the given bits and Valid, and no other address changes its
/// translation.  It fails exactly when the allocator cannot supply the
/// needed table nodes, in which case no translation changes at all.
#[verifier::rlimit(100)]
/// Makes sure the root slot for `vaddr`'s top index group holds a branch,
/// obtaining a fresh zeroed table from the allocator when the slot is
/// invalid.  Returns the frame of the child table; no translation moves.
fn ensure_root_branch(mem: &mut Memory, root: usize, vaddr: u64) -> (res: Result<usize, MapError>)
    requires
        wf_root(*old(mem), root as int),
        !e_valid(old(mem).entry_at(root as int, vpn(vaddr, 2) as int)) || !e_leaf(
            old(mem).entry_at(root as int, vpn(vaddr, 2) as int),
        ),
    ensures
        wf_root(*final(mem), root as int),
        same_shape(*old(mem), *final(mem)),
        forall|w: u64|
            #![trigger translate(*final(mem), root as int, w)]
            #![trigger walk_leaf(*final(mem), root as int, w)]
            translate(*final(mem), root as int, w) == translate(*old(mem), root as int, w)
                && walk_leaf(*final(mem), root as int, w) == walk_leaf(*old(mem), root as int, w),
        ({
            let e2 = old(mem).entry_at(root as int, vpn(vaddr, 2) as int);
            match res {
                Ok(t1) => {
                    &&& rbranch(*final(mem), root as int, vpn(vaddr, 2) as int)
                    &&& rchild(*final(mem), root as int, vpn(vaddr, 2) as int) == t1 as int
                    &&& 0 <= t1 as int
                    &&& (t1 as int) < final(mem).num_frames()
                    &&& count_free(final(mem).flags()) == count_free(old(mem).flags()) - (if
                    e_valid(e2) {
                        0int
                    } else {
                        1int
                    })
                    &&& count_free(old(mem).flags()) >= (if e_valid(e2) {
                        0int
                    } else {
                        1int
                    })
                    &&& (!e_valid(e2) ==> table_zeroed(final(mem).tables()[t1 as int]))
                    &&& (e_valid(e2) ==> final(mem).tables() == old(mem).tables()
                        && final(mem).flags() == old(mem).flags())
                },
                Err(_) => {
                    &&& !e_valid(e2)
                    &&& count_free(old(mem).flags()) == 0
                    &&& final(mem).flags() == old(mem).flags()
                    &&& final(mem).tables() == old(mem).tables()
                },
            }
        }),
{
    let ghost m0 = *mem;
    let ghost rr = root as int;
    proof {
        lemma_vpn_bounds(vaddr);
        lemma_flag_values();
    }
    let k2 = vpn_index(vaddr, 2);
    let e2 = mem.entry_value(root, k2);
    if e2 & 1 == 0 {
        let a = match mem.zalloc(1) {
            Some(a) => a,
            None => {
                proof {
                    lemma_count_free_bounds(m0.flags());
                    if count_free(m0.flags()) > 0 {
                        let i = choose|i: int|
                            0 <= i < m0.flags().len() && !taken_flag(m0.flags()[i]);
                        assert(!taken_flag(m0.flags()[i]));
                        assert(run_free(m0.flags(), i, 1));
                        assert(false);
                    }
                    lemma_wf_same(m0, *mem, rr);
                }
                return Err(MapError::OutOfMemory);
            },
        };
        let ghost m_a = *mem;
        let ghost j = frame_idx(m0.start(), a);
        proof {
            assert((4096 * j) / 4096 == j) by (nonlinear_arith);
            assert(taken_last(m_a, j));
            assert(a == m0.frame_addr(j));
            assert(a % 4096 == 0 && a >= m0.start()) by {
                let s = m0.start() as int;
                assert((s + 4096 * j) % 4096 == 0) by (nonlinear_arith)
                    requires
                        s % 4096 == 0,
                ;
            }
            assert(a < 0x100_0000_0000_0000);
            assert(m_a.addr_in_range(a));
            assert(m_a.table_of(a) == j);
        }
        let be = (a >> 2) | 1;
        mem.set_entry_at(root, k2, be);
        let t1 = match mem.resolve_table(a) {
            Some(t) => t,
            None => {
                proof {
                    assert(mem.addr_in_range(a));
                    assert(false);
                }
                return Err(MapError::OutOfMemory);
            },
        };
        proof {
            let m_b = *mem;
            assert(m_b.entry_at(rr, k2 as int) == branch_entry(a));
            lemma_map_install_root(m0, m_a, m_b, rr, k2 as int, j, a);
            assert(t1 as int == j);
            lemma_count_free_bounds(m_b.flags());
        }
        Ok(t1)
    } else {
        proof {
            assert(e_valid(m0.entry_at(rr, k2 as int)));
            assert(!e_leaf(m0.entry_at(rr, k2 as int)));
            assert(rbranch(m0, rr, k2 as int));
        }
        let t1 = match mem.resolve_table((e2 & !0x3ffu64) << 2) {
            Some(t) => t,
            None => {
                proof {
                    assert(m0.addr_in_range(rtarget(m0, rr, k2 as int)));
                    assert(false);
                }
                return Err(MapError::OutOfMemory);
            },
        };
        proof {
            assert(t1 as int == rchild(m0, rr, k2 as int));
            lemma_count_free_bounds(m0.flags());
        }
        Ok(t1)
    }
}

/// Makes sure entry `vpn(vaddr, 1)` of the level-1 table in frame `t1`
/// holds a branch, obtaining a fresh zeroed table when the slot is invalid.
/// Returns the frame of the level-0 table; no translation moves.
fn ensure_l1_branch(mem: &mut Memory, root: usize, t1: usize, vaddr: u64) -> (res: Result<
    usize,
    MapError,
>)
    requires
        wf_root(*old(mem), root as int),
        rbranch(*old(mem), root as int, vpn(vaddr, 2) as int),
        rchild(*old(mem), root as int, vpn(vaddr, 2) as int) == t1 as int,
        t1 < old(mem).num_frames(),
        !e_valid(old(mem).entry_at(t1 as int, vpn(vaddr, 1) as int)) || !e_leaf(
            old(mem).entry_at(t1 as int, vpn(vaddr, 1) as int),
        ),
    ensures
        wf_root(*final(mem), root as int),
        same_shape(*old(mem), *final(mem)),
        forall|w: u64|
            #![trigger translate(*final(mem), root as int, w)]
            #![trigger walk_leaf(*final(mem), root as int, w)]
            translate(*final(mem), root as int, w) == translate(*old(mem), root as int, w)
                && walk_leaf(*final(mem), root as int, w) == walk_leaf(*old(mem), root as int, w),
        ({
            let e1 = old(mem).entry_at(t1 as int, vpn(vaddr, 1) as int);
            match res {
                Ok(t0) => {
                    &&& rbranch(*final(mem), root as int, vpn(vaddr, 2) as int)
                    &&& rchild(*final(mem), root as int, vpn(vaddr, 2) as int) == t1 as int
                    &&& l1branch(
                        *final(mem),
                        root as int,
                        vpn(vaddr, 2) as int,
                        vpn(vaddr, 1) as int,
                    )
                    &&& l1child(
                        *final(mem),
                        root as int,
                        vpn(vaddr, 2) as int,
                        vpn(vaddr, 1) as int,
                    ) == t0 as int
                    &&& 0 <= t0 as int
                    &&& (t0 as int) < final(mem).num_frames()
                    &&& count_free(final(mem).flags()) == count_free(old(mem).flags()) - (if
                    e_valid(e1) {
                        0int
                    } else {
                        1int
                    })
                    &&& count_free(old(mem).flags()) >= (if e_valid(e1) {
                        0int
                    } else {
                        1int
                    })
                },
                Err(_) => {
                    &&& !e_valid(e1)
                    &&& count_free(old(mem).flags()) == 0
                    &&& final(mem).flags() == old(mem).flags()
                    &&& final(mem).tables() == old(mem).tables()
                },
            }
        }),
{
    let ghost m1s = *mem;
    let ghost rr = root as int;
    let ghost kg2 = vpn(vaddr, 2) as int;
    proof {
        lemma_vpn_bounds(vaddr);
        lemma_flag_values();
    }
    let k1 = vpn_index(vaddr, 1);
    let e1 = mem.entry_value(t1, k1);
    if e1 & 1 == 0 {
        let a2 = match mem.zalloc(1) {
            Some(a) => a,
            None => {
                proof {
                    lemma_count_free_bounds(m1s.flags());
                    if count_free(m1s.flags()) > 0 {
                        let i = choose|i: int|
                            0 <= i < m1s.flags().len() && !taken_flag(m1s.flags()[i]);
                        assert(!taken_flag(m1s.flags()[i]));
                        assert(run_free(m1s.flags(), i, 1));
                        assert(false);
                    }
                    lemma_wf_same(m1s, *mem, rr);
                }
                return Err(MapError::OutOfMemory);
            },
        };
        let ghost m_c = *mem;
        let ghost j2 = frame_idx(m1s.start(), a2);
        proof {
            assert((4096 * j2) / 4096 == j2) by (nonlinear_arith);
            assert(taken_last(m_c, j2));
            assert(a2 == m1s.frame_addr(j2));
            assert(a2 % 4096 == 0 && a2 >= m1s.start()) by {
                let s = m1s.start() as int;
                assert((s + 4096 * j2) % 4096 == 0) by (nonlinear_arith)
                    requires
                        s % 4096 == 0,
                ;
            }
            assert(a2 < 0x100_0000_0000_0000);
            assert(m_c.addr_in_range(a2));
            assert(m_c.table_of(a2) == j2);
        }
        let be2 = (a2 >> 2) | 1;
        mem.set_entry_at(t1, k1, be2);
        let t0 = match mem.resolve_table(a2) {
            Some(t) => t,
            None => {
                proof {
                    assert(mem.addr_in_range(a2));
                    assert(false);
                }
                return Err(MapError::OutOfMemory);
            },
        };
        proof {
            let m_d = *mem;
            assert(m_d.entry_at(t1 as int, k1 as int) == branch_entry(a2));
            lemma_map_install_l1(m1s, m_c, m_d, rr, kg2, k1 as int, t1 as int, j2, a2);
            assert(t0 as int == j2);
            lemma_count_free_bounds(m_d.flags());
        }
        Ok(t0)
    } else {
        proof {
            assert(e_valid(m1s.entry_at(t1 as int, k1 as int)));
            assert(!e_leaf(m1s.entry_at(t1 as int, k1 as int)));
            assert(l1branch(m1s, rr, kg2, k1 as int));
        }
        let t0 = match mem.resolve_table((e1 & !0x3ffu64) << 2) {
            Some(t) => t,
            None => {
                proof {
                    assert(m1s.addr_in_range(l1target(m1s, rr, kg2, k1 as int)));
                    assert(false);
                }
                return Err(MapError::OutOfMemory);
            },
        };
        proof {
            assert(t0 as int == l1child(m1s, rr, kg2, k1 as int));
            lemma_count_free_bounds(m1s.flags());
        }
        Ok(t0)
    }
}

pub fn map(
    mem: &mut Memory,
    root: usize,
    vaddr: u64,
    paddr: u64,
    bits: u64,
    level: usize,
) -> (res: Result<(), MapError>)
    requires
        wf_root(*old(mem), root as int),
        bits & 0xe != 0,
        bits < 0x400,
        paddr < 0x80_0000_0000,
        level <= 2,
        path_ok(*old(mem), root as int, vaddr, level as int),
    ensures
        wf_root(*final(mem), root as int),
        same_shape(*old(mem), *final(mem)),
        final(mem).flags().len() == old(mem).flags().len(),
        (res == Result::<(), MapError>::Ok(())) <==> tables_needed(
            *old(mem),
            root as int,
            vaddr,
            level as int,
        ) <= count_free(old(mem).flags()),
        res matches Ok(_) ==> count_free(final(mem).flags()) == count_free(old(mem).flags())
            - tables_needed(*old(mem), root as int, vaddr, level as int),
        res matches Err(_) ==> count_free(final(mem).flags()) >= count_free(old(mem).flags()) - 1,
        res matches Ok(_) ==> (forall|w: u64|
            same_page(w, vaddr, level as int) ==> #[trigger] translate(*final(mem), root as int, w)
                == Some((paddr & !off_mask(level as int)) | (w & off_mask(level as int)))),
        res matches Ok(_) ==> (forall|w: u64|
            !same_page(w, vaddr, level as int) ==> #[trigger] translate(*final(mem), root as int, w)
                == translate(*old(mem), root as int, w)),
        res matches Err(_) ==> (forall|w: u64|
            #[trigger] translate(*final(mem), root as int, w) == translate(
                *old(mem),
                root as int,
                w,
            )),
        // the installed leaf word itself: paddr's page-number groups, the
        // given permission bits, and Valid -- nothing else
        res matches Ok(_) ==> (forall|w: u64|
            same_page(w, vaddr, level as int) ==> #[trigger] walk_leaf(*final(mem), root as int, w)
                == Some((leaf_entry(paddr, bits), level as int))),
        res matches Ok(_) ==> (forall|w: u64|
            !same_page(w, vaddr, level as int) ==> #[trigger] walk_leaf(*final(mem), root as int, w)
                == walk_leaf(*old(mem), root as int, w)),
        res matches Err(_) ==> (forall|w: u64|
            #[trigger] walk_leaf(*final(mem), root as int, w) == walk_leaf(
                *old(mem),
                root as int,
                w,
            )),
{
    let ghost m0 = *mem;
    let ghost rr = root as int;
    let ghost lv = level as int;
    let ghost needed = tables_needed(m0, rr, vaddr, lv);
    proof {
        lemma_vpn_bounds(vaddr);
        lemma_count_free_bounds(m0.flags());
        lemma_flag_values();
    }
    let leaf = (((paddr >> 30) & 0x1ff) << 28) | (((paddr >> 21) & 0x1ff) << 19) | (((paddr >> 12)
        & 0x1ff) << 10) | bits | 1;
    proof {
        assert(leaf == leaf_entry(paddr, bits));
        lemma_leaf_entry(paddr, bits, vaddr);
    }
    if level == 2 {
        let k2 = vpn_index(vaddr, 2);
        mem.set_entry_at(root, k2, leaf);
        proof {
            assert(!e_branch(mem.entry_at(rr, k2 as int)));
            lemma_wf_nonbranch_write(m0, *mem, rr, rr, k2 as int);
            lemma_map_finish_l2(m0, *mem, rr, vaddr, paddr, bits);
            assert(needed == 0);
        }
        return Ok(());
    }
    // make sure the root slot for this address holds a branch
    let ghost e2m0 = m0.entry_at(rr, vpn(vaddr, 2) as int);
    let ghost used1: int = if e_valid(e2m0) {
        0int
    } else {
        1int
    };
    let t1 = match ensure_root_branch(mem, root, vaddr) {
        Ok(t) => t,
        Err(e) => {
            proof {
                assert(count_free(m0.flags()) == 0);
                assert(needed >= 1);
            }
            return Err(e);
        },
    };
    let ghost m1s = *mem;
    proof {
        assert(count_free(m1s.flags()) == count_free(m0.flags()) - used1);
        assert(forall|w: u64| #[trigger] translate(m1s, rr, w) == translate(m0, rr, w));
        assert forall|w: u64| #[trigger] walk_leaf(m1s, rr, w) == walk_leaf(m0, rr, w) by {
            assert(translate(m1s, rr, w) == translate(m0, rr, w));
        }
        if used1 == 1 {
            assert(needed == 2 - lv);
        }
    }
    if level == 1 {
        let ghost m_pre = *mem;
        let k1 = vpn_index(vaddr, 1);
        mem.set_entry_at(t1, k1, leaf);
        proof {
            let m_f = *mem;
            assert(!e_branch(m_f.entry_at(t1 as int, k1 as int)));
            lemma_wf_nonbranch_write(m_pre, m_f, rr, t1 as int, k1 as int);
            lemma_map_finish_l1(m0, m_pre, m_f, rr, vaddr, paddr, bits, t1 as int);
            assert(count_free(m_f.flags()) == count_free(m0.flags()) - used1);
            // the walk at level 1 needed exactly the tables it obtained
            if used1 == 0 {
                assert(needed == 0);
            } else {
                assert(needed == 1);
            }
        }
        return Ok(());
    }
    // level 0: make sure the level-1 slot holds a branch, tying its state
    // to what the walk needed originally
    let ghost e1m1s = m1s.entry_at(t1 as int, vpn(vaddr, 1) as int);
    let ghost used2: int = if e_valid(e1m1s) {
        0int
    } else {
        1int
    };
    proof {
        lemma_zero_entry();
        if used1 == 1 {
            assert(table_zeroed(m1s.tables()[t1 as int]));
            assert(e1m1s == 0);
            assert(needed == 2);
        } else {
            assert(e1m1s == m0.entry_at(rchild(m0, rr, vpn(vaddr, 2) as int), vpn(
                vaddr,
                1,
            ) as int));
            if !e_valid(e1m1s) {
                assert(needed == 1);
            } else {
                // a leaf above the target level is excluded by the walk's
                // precondition
                assert(!e_leaf(e1m1s));
                assert(needed == 0);
            }
        }
    }
    let t0 = match ensure_l1_branch(mem, root, t1, vaddr) {
        Ok(t) => t,
        Err(e) => {
            proof {
                assert(count_free(m1s.flags()) == 0);
                assert(count_free(m0.flags()) == used1);
                assert(used2 == 1);
                assert(needed > count_free(m0.flags()));
                assert forall|w: u64| #[trigger] translate(*mem, rr, w) == translate(m0, rr, w) by {
                    assert(translate(*mem, rr, w) == translate(m1s, rr, w));
                }
                assert forall|w: u64| #[trigger] walk_leaf(*mem, rr, w) == walk_leaf(m0, rr, w) by {
                    assert(translate(*mem, rr, w) == translate(m1s, rr, w));
                    assert(walk_leaf(m1s, rr, w) == walk_leaf(m0, rr, w));
                }
            }
            return Err(e);
        },
    };
    // write the 4KiB leaf
    let ghost m_pre = *mem;
    proof {
        assert(count_free(m_pre.flags()) == count_free(m0.flags()) - used1 - used2);
        assert(needed == used1 + used2);
        assert forall|w: u64| #[trigger] translate(m_pre, rr, w) == translate(m0, rr, w) by {
            assert(translate(m_pre, rr, w) == translate(m1s, rr, w));
        }
        assert forall|w: u64| #[trigger] walk_leaf(m_pre, rr, w) == walk_leaf(m0, rr, w) by {
            assert(translate(m_pre, rr, w) == translate(m1s, rr, w));
            assert(walk_leaf(m1s, rr, w) == walk_leaf(m0, rr, w));
        }
    }
    let k0 = vpn_index(vaddr, 0);
    mem.set_entry_at(t0, k0, leaf);
    proof {
        let m_f = *mem;
        assert(!e_branch(m_f.entry_at(t0 as int, k0 as int)));
        lemma_wf_nonbranch_write(m_pre, m_f, rr, t0 as int, k0 as int);
        lemma_map_finish_l0(m0, m_pre, m_f, rr, vaddr, paddr, bits, t1 as int, t0 as int);
        assert(count_free(m_f.flags()) == count_free(m0.flags()) - needed);
        lemma_count_free_bounds(m_f.flags());
    }
    Ok(())
}

/// A page-aligned `cur` covers exactly the addresses of its 4KiB page, and
/// identity-mapping it hands every such address back unchanged.
pub proof fn lemma_id_page(w: u64, cur: u64)
    requires
        cur % 4096 == 0,
        cur + 4096 <= 0x80_0000_0000,
        w < 0x80_0000_0000,
    ensures
        same_page(w, cur, 0) <==> (cur <= w < cur + 4096),
        cur <= w < cur + 4096 ==> ((cur & !0xfffu64) | (w & 0xfff)) == w,
        cur <= w < cur + 4096 ==> (w & !0xfffu64) == cur,
{
    assert({
        &&& ((((w >> 12) & 0x1ff) == ((cur >> 12) & 0x1ff) && ((w >> 21) & 0x1ff) == ((cur >> 21)
            & 0x1ff) && ((w >> 30) & 0x1ff) == ((cur >> 30) & 0x1ff)) <==> (cur <= w && w < cur
            + 4096))
        &&& (cur <= w && w < cur + 4096 ==> ((cur & !0xfffu64) | (w & 0xfff)) == w)
        &&& (cur <= w && w < cur + 4096 ==> (w & !0xfffu64) == cur)
    }) by (bit_vector)
        requires
            cur % 4096 == 0,
            cur + 4096 <= 0x80_0000_0000u64,
            w < 0x80_0000_0000u64,
    ;
}

/// An unmapped address has no superpage leaf on its walk: it can be mapped
/// at the finest level.
pub proof fn lemma_unmapped_path_ok(m: Memory, r: int, va: u64)
    requires
        wf_root(m, r),
        translate(m, r, va) is None,
    ensures
        path_ok(m, r, va, 0),
{
    lemma_vpn_bounds(va);
    let k2 = vpn(va, 2) as int;
    let e2 = m.entry_at(r, k2);
    if e_valid(e2) {
        assert(!e_leaf(e2));
        assert(rbranch(m, r, k2));
        assert(m.addr_in_range(rtarget(m, r, k2)));
    }
}


/// After one identity mapping at the page of `cur`, the mapped prefix has
/// grown by one page and nothing else moved.
proof fn lemma_id_step(
    m0: Memory,
    m_i: Memory,
    m_n: Memory,
    rr: int,
    lo: u64,
    hi: u64,
    idx: int,
    cur: u64,
    bits: u64,
)
    requires
        lo % 4096 == 0,
        hi % 4096 == 0,
        hi <= 0x80_0000_0000,
        0 <= idx,
        cur == lo + 4096 * idx,
        cur + 4096 <= hi,
        forall|w: u64|
            same_page(w, cur, 0) ==> #[trigger] translate(m_n, rr, w) == Some(
                (cur & !off_mask(0)) | (w & off_mask(0)),
            ),
        forall|w: u64|
            same_page(w, cur, 0) ==> #[trigger] walk_leaf(m_n, rr, w) == Some(
                (leaf_entry(cur, bits), 0int),
            ),
        forall|w: u64|
            !same_page(w, cur, 0) ==> #[trigger] translate(m_n, rr, w) == translate(m_i, rr, w),
        forall|w: u64|
            !same_page(w, cur, 0) ==> #[trigger] walk_leaf(m_n, rr, w) == walk_leaf(m_i, rr, w),
        forall|w: u64| lo <= w < lo + 4096 * idx ==> #[trigger] translate(m_i, rr, w) == Some(w),
        forall|w: u64|
            lo <= w < lo + 4096 * idx ==> #[trigger] walk_leaf(m_i, rr, w) == Some(
                (leaf_entry(w & !0xfffu64, bits), 0int),
            ),
        forall|w: u64|
            w < 0x80_0000_0000 && !(lo <= w < lo + 4096 * idx) ==> #[trigger] translate(
                m_i,
                rr,
                w,
            ) == translate(m0, rr, w),
        forall|w: u64|
            w < 0x80_0000_0000 && !(lo <= w < lo + 4096 * idx) ==> #[trigger] walk_leaf(
                m_i,
                rr,
                w,
            ) == walk_leaf(m0, rr, w),
    ensures
        forall|w: u64|
            #![trigger translate(m_n, rr, w)]
            #![trigger walk_leaf(m_n, rr, w)]
            lo <= w < lo + 4096 * (idx + 1) ==> translate(m_n, rr, w) == Some(w) && walk_leaf(
                m_n,
                rr,
                w,
            ) == Some((leaf_entry(w & !0xfffu64, bits), 0int)),
        forall|w: u64|
            #![trigger translate(m_n, rr, w)]
            #![trigger walk_leaf(m_n, rr, w)]
            w < 0x80_0000_0000 && !(lo <= w < lo + 4096 * (idx + 1)) ==> translate(m_n, rr, w)
                == translate(m0, rr, w) && walk_leaf(m_n, rr, w) == walk_leaf(m0, rr, w),
{
    assert forall|w: u64| lo <= w < lo + 4096 * (idx + 1) implies #[trigger] translate(m_n, rr, w)
        == Some(w) && walk_leaf(m_n, rr, w) == Some((leaf_entry(w & !0xfffu64, bits), 0int)) by {
        lemma_id_page(w, cur);
        if cur <= w < cur + 4096 {
            assert(same_page(w, cur, 0));
            assert(translate(m_n, rr, w) == Some((cur & !off_mask(0)) | (w & off_mask(0))));
            assert(walk_leaf(m_n, rr, w) == Some((leaf_entry(cur, bits), 0int)));
            assert((w & !0xfffu64) == cur);
        } else {
            assert(w < lo + 4096 * idx);
            assert(!same_page(w, cur, 0));
            assert(translate(m_n, rr, w) == translate(m_i, rr, w));
            assert(walk_leaf(m_n, rr, w) == walk_leaf(m_i, rr, w));
        }
    }
    assert forall|w: u64|
        w < 0x80_0000_0000 && !(lo <= w < lo + 4096 * (idx + 1)) implies #[trigger] translate(
        m_n,
        rr,
        w,
    ) == translate(m0, rr, w) && walk_leaf(m_n, rr, w) == walk_leaf(m0, rr, w) by {
        lemma_id_page(w, cur);
        assert(!same_page(w, cur, 0));
        assert(translate(m_n, rr, w) == translate(m_i, rr, w));
        assert(walk_leaf(m_n, rr, w) == walk_leaf(m_i, rr, w));
    }
}

/// When mapping the page of `cur` fails, everything already mapped stays,
/// and the rest of the range is as it started: unmapped.
proof fn lemma_id_err(
    m0: Memory,
    m_i: Memory,
    m_n: Memory,
    rr: int,
    lo: u64,
    hi: u64,
    idx: int,
    cur: u64,
)
    requires
        lo % 4096 == 0,
        hi % 4096 == 0,
        hi <= 0x80_0000_0000,
        0 <= idx,
        cur == lo + 4096 * idx,
        cur + 4096 <= hi,
        forall|w: u64| #[trigger] translate(m_n, rr, w) == translate(m_i, rr, w),
        forall|w: u64| #[trigger] walk_leaf(m_n, rr, w) == walk_leaf(m_i, rr, w),
        forall|w: u64| lo <= w < hi ==> #[trigger] translate(m0, rr, w) is None,
        forall|w: u64| lo <= w < lo + 4096 * idx ==> #[trigger] translate(m_i, rr, w) == Some(w),
        forall|w: u64|
            w < 0x80_0000_0000 && !(lo <= w < lo + 4096 * idx) ==> #[trigger] translate(
                m_i,
                rr,
                w,
            ) == translate(m0, rr, w),
        forall|w: u64|
            w < 0x80_0000_0000 && !(lo <= w < lo + 4096 * idx) ==> #[trigger] walk_leaf(
                m_i,
                rr,
                w,
            ) == walk_leaf(m0, rr, w),
    ensures
        forall|w: u64|
            lo <= w < hi ==> #[trigger] translate(m_n, rr, w) == Some(w) || translate(m_n, rr, w)
                is None,
        forall|w: u64|
            #![trigger translate(m_n, rr, w)]
            #![trigger walk_leaf(m_n, rr, w)]
            w < 0x80_0000_0000 && !(lo <= w < hi) ==> translate(m_n, rr, w) == translate(m0, rr, w)
                && walk_leaf(m_n, rr, w) == walk_leaf(m0, rr, w),
{
    assert forall|w: u64| lo <= w < hi implies #[trigger] translate(m_n, rr, w) == Some(w)
        || translate(m_n, rr, w) is None by {
        assert(translate(m_n, rr, w) == translate(m_i, rr, w));
        if !(lo <= w < lo + 4096 * idx) {
            assert(translate(m_i, rr, w) == translate(m0, rr, w));
            assert(translate(m0, rr, w) is None);
        }
    }
    assert forall|w: u64|
        w < 0x80_0000_0000 && !(lo <= w < hi) implies #[trigger] translate(m_n, rr, w) == translate(
        m0,
        rr,
        w,
    ) && walk_leaf(m_n, rr, w) == walk_leaf(m0, rr, w) by {
        assert(translate(m_n, rr, w) == translate(m_i, rr, w));
        assert(walk_leaf(m_n, rr, w) == walk_leaf(m_i, rr, w));
        assert(!(lo <= w < lo + 4096 * idx));
    }
}

/// Identity-maps `[start, end)` at the finest granularity: `start` rounded
/// down and `end` rounded up to frame boundaries, one 4KiB leaf per covered
/// frame, each mapping its page to itself with exactly the given permission
/// bits.
#[verifier::rlimit(100)]
pub fn id_map_range(mem: &mut Memory, root: usize, start: u64, end: u64, bits: u64) -> (res: Result<
    (),
    MapError,
>)
    requires
        wf_root(*old(mem), root as int),
        bits & 0xe != 0,
        bits < 0x400,
        start <= end,
        end <= 0x80_0000_0000,
        // the covered range is still unmapped
        forall|w: u64|
            (start & !0xfffu64) <= w < spec_align_val(end, 12) ==> #[trigger] translate(
                *old(mem),
                root as int,
                w,
            ) is None,
    ensures
        wf_root(*final(mem), root as int),
        same_shape(*old(mem), *final(mem)),
        ({
            let lo = start & !0xfffu64;
            let hi = spec_align_val(end, 12);
            let npages = (hi - lo) / 4096;
            &&& (2 * npages <= count_free(old(mem).flags()) ==> res matches Ok(_))
            &&& count_free(final(mem).flags()) >= count_free(old(mem).flags()) - 2 * npages
            &&& (res matches Ok(_) ==> (forall|w: u64|
                lo <= w < hi ==> #[trigger] translate(*final(mem), root as int, w) == Some(w)))
            // every covered page carries exactly the leaf word for its own
            // page base with the given permission bits
            &&& (res matches Ok(_) ==> (forall|w: u64|
                lo <= w < hi ==> #[trigger] walk_leaf(*final(mem), root as int, w) == Some(
                    (leaf_entry(w & !0xfffu64, bits), 0int),
                )))
            &&& (forall|w: u64|
                w < 0x80_0000_0000 && !(lo <= w < hi) ==> #[trigger] translate(
                    *final(mem),
                    root as int,
                    w,
                ) == translate(*old(mem), root as int, w))
            &&& (forall|w: u64|
                w < 0x80_0000_0000 && !(lo <= w < hi) ==> #[trigger] walk_leaf(
                    *final(mem),
                    root as int,
                    w,
                ) == walk_leaf(*old(mem), root as int, w))
            &&& (res matches Err(_) ==> (forall|w: u64|
                lo <= w < hi ==> #[trigger] translate(*final(mem), root as int, w) == Some(w)
                    || translate(*final(mem), root as int, w) is None))
        }),
{
    let ghost m0 = *mem;
    let ghost rr = root as int;
    proof {
        assert((1u64 << 12u64) == 4096) by (bit_vector);
        assert(start & !0xfffu64 <= start && (start & !0xfffu64) % 4096 == 0) by (bit_vector);
        crate::frame::lemma_align_val_frame(end);
    }
    let mut memaddr = start & !(PAGE_SIZE - 1);
    let end_up = crate::frame::align_val(end, crate::frame::PAGE_ORDER);
    let ghost lo = memaddr;
    let ghost hi = end_up as u64;
    proof {
        assert(hi % 4096 == 0 && hi <= 0x80_0000_0000) by {
            assert(end <= hi < end + 4096);
            assert(hi % 4096 == 0);
            if hi > 0x80_0000_0000 {
                assert(hi < 0x80_0000_0000 + 4096);
                assert(hi % 4096 == 0);
                assert((0x80_0000_0000u64 as int) % 4096 == 0);
                assert(false) by (nonlinear_arith)
                    requires
                        (hi as int) % 4096 == 0,
                        0x80_0000_0000 < hi as int && (hi as int) < 0x80_0000_0000 + 4096,
                ;
            }
        }
        assert((hi - lo) % 4096 == 0 && (hi - lo) / 4096 * 4096 == hi - lo) by (nonlinear_arith)
            requires
                (hi as int) % 4096 == 0,
                (lo as int) % 4096 == 0,
                lo <= hi,
        ;
    }
    let num_kb_pages = (end_up - memaddr) / PAGE_SIZE;
    let ghost npages = (hi - lo) as int / 4096;
    let mut idx: u64 = 0;
    while idx < num_kb_pages
        invariant
            rr == root as int,
            m0 == *old(mem),
            lo == (start & !0xfffu64),
            hi == spec_align_val(end, 12),
            npages == (hi - lo) as int / 4096,
            wf_root(*mem, rr),
            same_shape(m0, *mem),
            root < m0.num_frames(),
            bits & 0xe != 0,
            bits < 0x400,
            num_kb_pages == npages,
            0 <= idx <= num_kb_pages,
            lo % 4096 == 0,
            hi % 4096 == 0,
            hi <= 0x80_0000_0000,
            lo <= hi,
            4096 * npages == hi - lo,
            memaddr == lo + 4096 * idx,
            count_free(mem.flags()) >= count_free(m0.flags()) - 2 * idx,
            forall|w: u64|
                (lo <= w < hi ==> #[trigger] translate(m0, rr, w) is None),
            forall|w: u64|
                lo <= w < lo + 4096 * idx ==> #[trigger] translate(*mem, rr, w) == Some(w),
            forall|w: u64|
                lo <= w < lo + 4096 * idx ==> #[trigger] walk_leaf(*mem, rr, w) == Some(
                    (leaf_entry(w & !0xfffu64, bits), 0int),
                ),
            forall|w: u64|
                w < 0x80_0000_0000 && !(lo <= w < lo + 4096 * idx) ==> #[trigger] translate(
                    *mem,
                    rr,
                    w,
                ) == translate(m0, rr, w),
            forall|w: u64|
                w < 0x80_0000_0000 && !(lo <= w < lo + 4096 * idx) ==> #[trigger] walk_leaf(
                    *mem,
                    rr,
                    w,
                ) == walk_leaf(m0, rr, w),
        decreases num_kb_pages - idx,
    {
        let ghost m_i = *mem;
        let ghost cur = memaddr;
        proof {
            assert(cur % 4096 == 0) by (nonlinear_arith)
                requires
                    cur as int == lo + 4096 * (idx as int),
                    (lo as int) % 4096 == 0,
            ;
            assert(cur + 4096 <= hi) by (nonlinear_arith)
                requires
                    cur as int == lo + 4096 * (idx as int),
                    4096 * (npages as int) == hi - lo,
                    idx < npages,
            ;
            assert(translate(m_i, rr, cur) == translate(m0, rr, cur));
            assert(translate(m_i, rr, cur) is None);
            lemma_unmapped_path_ok(m_i, rr, cur);
            assert(tables_needed(m_i, rr, cur, 0) <= 2);
        }
        let r = map(mem, root, memaddr, memaddr, bits, 0);
        match r {
            Ok(_) => {},
            Err(e) => {
                proof {
                    // the pool could not supply the table nodes, so the
                    // sufficient reserve cannot have been there
                    assert(count_free(m_i.flags()) < tables_needed(m_i, rr, cur, 0));
                    assert(count_free(m0.flags()) <= count_free(m_i.flags()) + 2 * idx);
                    assert(count_free(m0.flags()) < 2 * npages);
                    lemma_id_err(m0, m_i, *mem, rr, lo, hi, idx as int, cur);
                }
                return Err(e);
            },
        }
        proof {
            lemma_id_step(m0, m_i, *mem, rr, lo, hi, idx as int, cur, bits);
        }
        memaddr = memaddr + PAGE_SIZE;
        idx = idx + 1;
    }
    proof {
        assert(lo + 4096 * npages == hi);
    }
    Ok(())
}

/// LAW: the map/probe round trip.  In any state that a successful 4KiB
/// `map(root, vaddr, paddr, bits, 0)` call produced, the probe answers
/// `Some(paddr)` for the mapped address (the addresses sharing its page
/// offset), and every address outside the mapped page that was unmapped
/// before the call is still unmapped.
pub proof fn lemma_map_round_trip(
    m0: Memory,
    m1: Memory,
    r: int,
    vaddr: u64,
    paddr: u64,
)
    requires
        vaddr & 0xfff == paddr & 0xfff,
        forall|w: u64|
            same_page(w, vaddr, 0) ==> #[trigger] translate(m1, r, w) == Some(
                (paddr & !off_mask(0)) | (w & off_mask(0)),
            ),
        forall|w: u64|
            !same_page(w, vaddr, 0) ==> #[trigger] translate(m1, r, w) == translate(m0, r, w),
    ensures
        translate(m1, r, vaddr) == Some(paddr),
        forall|w: u64|
            !same_page(w, vaddr, 0) && translate(m0, r, w) is None ==> #[trigger] translate(
                m1,
                r,
                w,
            ) is None,
{
    assert(same_page(vaddr, vaddr, 0));
    assert((paddr & !0xfffu64) | (vaddr & 0xfff) == paddr) by (bit_vector)
        requires
            vaddr & 0xfff == paddr & 0xfff,
    ;
}

/// Frame `i` holds a table node that the tree rooted at `r` reaches: a
/// level-1 or level-0 table.
pub open spec fn is_child_table(m: Memory, r: int, i: int) -> bool {
    ||| exists|k2: int| 0 <= k2 < 512 && #[trigger] rbranch(m, r, k2) && rchild(m, r, k2) == i
    ||| exists|k2: int, k1: int|
        0 <= k2 < 512 && 0 <= k1 < 512 && #[trigger] l1branch(m, r, k2, k1) && l1child(
            m,
            r,
            k2,
            k1,
        ) == i
}

/// The child tables under the first `b2` root entries.
pub open spec fn outer_freed(m: Memory, r: int, i: int, b2: int) -> bool {
    ||| exists|k2: int| 0 <= k2 < b2 && #[trigger] rbranch(m, r, k2) && rchild(m, r, k2) == i
    ||| exists|k2: int, k1: int|
        0 <= k2 < b2 && 0 <= k1 < 512 && #[trigger] l1branch(m, r, k2, k1) && l1child(
            m,
            r,
            k2,
            k1,
        ) == i
}

/// The level-0 tables under the first `b1` entries of root entry `c2`.
pub open spec fn inner_freed(m: Memory, r: int, i: int, c2: int, b1: int) -> bool {
    exists|k1: int|
        0 <= k1 < b1 && #[trigger] l1branch(m, r, c2, k1) && l1child(m, r, c2, k1) == i
}

/// Reclaims every table-node frame reachable from the root: each level-0
/// table, then its level-1 parent, is handed back to the allocator.  The
/// entries themselves are not cleared: the tree still holds now-dangling
/// branch pointers, so the root frame must be re-zeroed before any reuse.
pub fn unmap(mem: &mut Memory, root: usize)
    requires
        wf_root(*old(mem), root as int),
    ensures
        final(mem).inv(),
        same_shape(*old(mem), *final(mem)),
        final(mem).tables() == old(mem).tables(),
        forall|i: int|
            0 <= i < old(mem).num_frames() ==> final(mem).flags()[i] == (if is_child_table(
                *old(mem),
                root as int,
                i,
            ) {
                0u8
            } else {
                old(mem).flags()[i]
            }),
{
    let ghost m0 = *mem;
    let ghost rr = root as int;
    let mut k2: usize = 0;
    while k2 < 512
        invariant
            rr == root as int,
            m0 == *old(mem),
            wf_root(m0, rr),
            root < m0.num_frames(),
            mem.inv(),
            same_shape(m0, *mem),
            mem.tables() == m0.tables(),
            0 <= k2 <= 512,
            forall|i: int|
                0 <= i < m0.num_frames() ==> mem.flags()[i] == (if outer_freed(m0, rr, i, k2 as int) {
                    0u8
                } else {
                    m0.flags()[i]
                }),
        decreases 512 - k2,
    {
        let e2 = mem.entry_value(root, k2);
        if e2 & 1 != 0 && e2 & 0xe == 0 {
            proof {
                assert(mem.entry_at(rr, k2 as int) == m0.entry_at(rr, k2 as int));
                assert(rbranch(m0, rr, k2 as int));
            }
            let a1 = (e2 & !0x3ffu64) << 2;
            let t1 = match mem.resolve_table(a1) {
                Some(t) => t,
                None => {
                    proof {
                        assert(m0.addr_in_range(rtarget(m0, rr, k2 as int)));
                        assert(false);
                    }
                    return ;
                },
            };
            proof {
                assert(t1 as int == rchild(m0, rr, k2 as int));
            }
            let mut k1: usize = 0;
            while k1 < 512
                invariant
                    rr == root as int,
                    m0 == *old(mem),
                    wf_root(m0, rr),
                    root < m0.num_frames(),
                    mem.inv(),
                    same_shape(m0, *mem),
                    mem.tables() == m0.tables(),
                    0 <= k2 < 512,
                    0 <= k1 <= 512,
                    rbranch(m0, rr, k2 as int),
                    t1 as int == rchild(m0, rr, k2 as int),
                    forall|i: int|
                        0 <= i < m0.num_frames() ==> mem.flags()[i] == (if outer_freed(
                            m0,
                            rr,
                            i,
                            k2 as int,
                        ) || inner_freed(m0, rr, i, k2 as int, k1 as int) {
                            0u8
                        } else {
                            m0.flags()[i]
                        }),
                decreases 512 - k1,
            {
                let e1 = mem.entry_value(t1, k1);
                if e1 & 1 != 0 && e1 & 0xe == 0 {
                    proof {
                        assert(mem.entry_at(t1 as int, k1 as int) == m0.entry_at(
                            t1 as int,
                            k1 as int,
                        ));
                        assert(l1branch(m0, rr, k2 as int, k1 as int));
                        assert(m0.addr_in_range(l1target(m0, rr, k2 as int, k1 as int)));
                    }
                    let a0 = (e1 & !0x3ffu64) << 2;
                    let ghost t0 = l1child(m0, rr, k2 as int, k1 as int);
                    let ghost m_i = *mem;
                    proof {
                        lemma_flag_values();
                        // this level-0 table is not among the frames freed so
                        // far, so its descriptor still reads as its own run
                        assert(!outer_freed(m0, rr, t0, k2 as int));
                        assert(!inner_freed(m0, rr, t0, k2 as int, k1 as int));
                        assert(mem.flags()[t0] == m0.flags()[t0]);
                        assert(taken_last(m0, t0));
                        assert(frame_idx(m0.start(), a0) == t0);
                        assert(a0 >= m0.start());
                        if t0 > 0 {
                            let p0 = t0 - 1;
                            assert(mem.flags()[p0] == 0 || mem.flags()[p0] == m0.flags()[p0]);
                        }
                    }
                    let r0 = mem.dealloc(a0);
                    proof {
                        assert(r0 matches Ok(_));
                        assert(crate::frame::run_end(m_i.flags(), t0) == t0);
                        assert forall|i: int| 0 <= i < m0.num_frames() implies mem.flags()[i] == (
                        if outer_freed(m0, rr, i, k2 as int) || inner_freed(
                            m0,
                            rr,
                            i,
                            k2 as int,
                            k1 + 1,
                        ) {
                            0u8
                        } else {
                            m0.flags()[i]
                        }) by {
                            if i == t0 {
                                assert(l1branch(m0, rr, k2 as int, k1 as int) && l1child(
                                    m0,
                                    rr,
                                    k2 as int,
                                    k1 as int,
                                ) == i);
                                assert(inner_freed(m0, rr, i, k2 as int, k1 + 1));
                            } else {
                                assert(mem.flags()[i] == m_i.flags()[i]);
                                if inner_freed(m0, rr, i, k2 as int, k1 + 1) && !inner_freed(
                                    m0,
                                    rr,
                                    i,
                                    k2 as int,
                                    k1 as int,
                                ) {
                                    let w1 = choose|w1: int|
                                        0 <= w1 < k1 + 1 && #[trigger] l1branch(m0, rr, k2 as int, w1)
                                            && l1child(m0, rr, k2 as int, w1) == i;
                                    assert(w1 == k1 as int);
                                    assert(false);
                                }
                            }
                        }
                    }
                } else {
                    proof {
                        assert(mem.entry_at(t1 as int, k1 as int) == m0.entry_at(
                            t1 as int,
                            k1 as int,
                        ));
                        assert(!l1branch(m0, rr, k2 as int, k1 as int));
                        assert forall|i: int| 0 <= i < m0.num_frames() implies mem.flags()[i] == (
                        if outer_freed(m0, rr, i, k2 as int) || inner_freed(
                            m0,
                            rr,
                            i,
                            k2 as int,
                            k1 + 1,
                        ) {
                            0u8
                        } else {
                            m0.flags()[i]
                        }) by {
                            if inner_freed(m0, rr, i, k2 as int, k1 + 1) && !inner_freed(
                                m0,
                                rr,
                                i,
                                k2 as int,
                                k1 as int,
                            ) {
                                let w1 = choose|w1: int|
                                    0 <= w1 < k1 + 1 && #[trigger] l1branch(m0, rr, k2 as int, w1)
                                        && l1child(m0, rr, k2 as int, w1) == i;
                                assert(w1 == k1 as int);
                                assert(false);
                            }
                        }
                    }
                }
                k1 = k1 + 1;
            }
            // free the level-1 table itself
            let ghost m_j = *mem;
            proof {
                lemma_flag_values();
                assert(!outer_freed(m0, rr, t1 as int, k2 as int));
                assert(!inner_freed(m0, rr, t1 as int, k2 as int, 512));
                assert(mem.flags()[t1 as int] == m0.flags()[t1 as int]);
                assert(taken_last(m0, t1 as int));
                assert(frame_idx(m0.start(), a1) == t1 as int);
                assert(a1 >= m0.start());
                if t1 > 0 {
                    assert(mem.flags()[t1 - 1] == 0 || mem.flags()[t1 - 1] == m0.flags()[t1 - 1]);
                }
            }
            let r1 = mem.dealloc(a1);
            proof {
                assert(r1 matches Ok(_));
                assert(crate::frame::run_end(m_j.flags(), t1 as int) == t1 as int);
                assert forall|i: int| 0 <= i < m0.num_frames() implies mem.flags()[i] == (if
                outer_freed(m0, rr, i, k2 + 1) {
                    0u8
                } else {
                    m0.flags()[i]
                }) by {
                    if i == t1 as int {
                        assert(rbranch(m0, rr, k2 as int) && rchild(m0, rr, k2 as int) == i);
                        assert(outer_freed(m0, rr, i, k2 + 1));
                    } else {
                        assert(mem.flags()[i] == m_j.flags()[i]);
                        if outer_freed(m0, rr, i, k2 + 1) {
                            assert(outer_freed(m0, rr, i, k2 as int) || inner_freed(
                                m0,
                                rr,
                                i,
                                k2 as int,
                                512,
                            ));
                        }
                        if (outer_freed(m0, rr, i, k2 as int) || inner_freed(
                            m0,
                            rr,
                            i,
                            k2 as int,
                            512,
                        )) && !outer_freed(m0, rr, i, k2 + 1) {
                            assert(false);
                        }
                    }
                }
            }
        } else {
            proof {
                assert(mem.entry_at(rr, k2 as int) == m0.entry_at(rr, k2 as int));
                assert(!rbranch(m0, rr, k2 as int));
                assert forall|i: int| 0 <= i < m0.num_frames() implies mem.flags()[i] == (if
                outer_freed(m0, rr, i, k2 + 1) {
                    0u8
                } else {
                    m0.flags()[i]
                }) by {
                    if outer_freed(m0, rr, i, k2 + 1) && !outer_freed(m0, rr, i, k2 as int) {
                        assert(false);
                    }
                }
            }
        }
        k2 = k2 + 1;
    }
    proof {
        assert forall|i: int| 0 <= i < m0.num_frames() implies mem.flags()[i] == (if is_child_table(
            m0,
            rr,
            i,
        ) {
            0u8
        } else {
            m0.flags()[i]
        }) by {
            if is_child_table(m0, rr, i) {
                assert(outer_freed(m0, rr, i, 512));
            }
            if outer_freed(m0, rr, i, 512) {
                assert(is_child_table(m0, rr, i));
            }
        }
    }
}

/// One memory region the kernel identity-maps at bring-up, with its
/// permission bits.
#[derive(Clone, Copy, Debug)]
pub struct MapRegion {
    pub start: u64,
    pub end: u64,
    pub bits: u64,
}

/// What activating translation needs: the root table's frame, its physical
/// address, and the value for the translation-activation register.
#[derive(Clone, Copy, Debug)]
pub struct RootInfo {
    pub root: usize,
    pub root_addr: u64,
    pub satp: u64,
}

pub open spec fn region_lo(reg: MapRegion) -> u64 {
    reg.start & !0xfffu64
}

pub open spec fn region_hi(reg: MapRegion) -> u64 {
    spec_align_val(reg.end, 12)
}

/// The regions carry mappable permission bits and lie pairwise disjoint,
/// clear of the device page.
pub open spec fn regions_wf(regions: Seq<MapRegion>, device_page: u64) -> bool {
    &&& forall|i: int|
        0 <= i < regions.len() ==> (#[trigger] regions[i]).bits & 0xe != 0 && regions[i].bits
            < 0x400 && regions[i].start <= regions[i].end && regions[i].end <= 0x80_0000_0000
    &&& forall|i: int, j: int|
        #![trigger regions[i], regions[j]]
        0 <= i < regions.len() && 0 <= j < regions.len() && i != j ==> region_hi(regions[i])
            <= region_lo(regions[j]) || region_hi(regions[j]) <= region_lo(regions[i])
    &&& device_page < 0x80_0000_0000
    &&& forall|i: int|
        0 <= i < regions.len() ==> region_hi(#[trigger] regions[i]) <= (device_page & !0xfffu64)
            || (device_page & !0xfffu64) + 4096 <= region_lo(regions[i])
}

/// `w` lies in one of the first `n` regions.
pub open spec fn in_some_region(regions: Seq<MapRegion>, n: int, w: u64) -> bool {
    exists|j: int| 0 <= j < n && region_lo(#[trigger] regions[j]) <= w < region_hi(regions[j])
}

/// Pages covered by the first `n` regions, counted with multiplicity.
pub open spec fn total_map_pages(regions: Seq<MapRegion>, n: int) -> int
    decreases n,
{
    if n <= 0 {
        0
    } else {
        total_map_pages(regions, n - 1) + (region_hi(regions[n - 1]) - region_lo(regions[n - 1]))
            / 4096
    }
}

pub proof fn lemma_total_map_pages_monotone(regions: Seq<MapRegion>, a: int, b: int)
    requires
        0 <= a <= b <= regions.len(),
        forall|i: int| 0 <= i < regions.len() ==> region_lo(#[trigger] regions[i]) <= region_hi(regions[i]),
    ensures
        total_map_pages(regions, a) <= total_map_pages(regions, b),
    decreases b - a,
{
    if a < b {
        lemma_total_map_pages_monotone(regions, a, b - 1);
        assert(region_lo(regions[b - 1]) <= region_hi(regions[b - 1]));
        assert((region_hi(regions[b - 1]) - region_lo(regions[b - 1])) / 4096 >= 0);
    }
}

/// A frame holding a zeroed table is a well-formed tree of one node, and
/// maps nothing.
pub proof fn lemma_wf_fresh_root(m: Memory, r: int)
    requires
        m.inv(),
        0 <= r < m.num_frames(),
        taken_last(m, r),
        table_zeroed(m.tables()[r]),
    ensures
        wf_root(m, r),
        forall|w: u64| #[trigger] translate(m, r, w) is None,
{
    lemma_zero_entry();
    assert forall|k2: int| 0 <= k2 < 512 implies !rbranch(m, r, k2) by {
        assert(m.entry_at(r, k2) == 0);
    }
    assert forall|w: u64| #[trigger] translate(m, r, w) is None by {
        lemma_vpn_bounds(w);
        assert(m.entry_at(r, vpn(w, 2) as int) == 0);
    }
}

/// One-shot address-space bring-up: obtains a zeroed root table from the
/// allocator, identity-maps every given region, maps the one device page
/// read/write, and computes the translation-activation register value (mode
/// 8, Sv39, over the root's physical page number).  Writing that register is
/// the caller's privileged step.
#[verifier::rlimit(60)]
pub fn init(mem: &mut Memory, regions: &Vec<MapRegion>, device_page: u64) -> (res: Result<
    RootInfo,
    MapError,
>)
    requires
        old(mem).inv(),
        regions_wf(regions@, device_page),
    ensures
        final(mem).inv(),
        same_shape(*old(mem), *final(mem)),
        // success is owed when the pool can cover the root, two table nodes
        // per mapped page, and the device page's two nodes
        count_free(old(mem).flags()) >= 3 + 2 * total_map_pages(regions@, regions@.len() as int)
            ==> res matches Ok(_),
        res matches Ok(info) ==> ({
            let dpb = device_page & !0xfffu64;
            &&& wf_root(*final(mem), info.root as int)
            &&& 0 <= info.root as int && (info.root as int) < final(mem).num_frames()
            &&& info.root_addr == final(mem).frame_addr(info.root as int)
            &&& info.satp == (8u64 << 60) | (info.root_addr >> 12)
            &&& forall|w: u64|
                w < 0x80_0000_0000 ==> #[trigger] translate(*final(mem), info.root as int, w) == (
                if in_some_region(regions@, regions@.len() as int, w) || (dpb <= w < dpb + 4096) {
                    Some(w)
                } else {
                    None
                })
            // each region's pages carry leaves with that region's own
            // permission bits, the device page a read/write leaf
            &&& (forall|j: int, w: u64|
                #![trigger region_lo(regions@[j]), walk_leaf(*final(mem), info.root as int, w)]
                0 <= j < regions@.len() && region_lo(regions@[j]) <= w < region_hi(regions@[j])
                    ==> walk_leaf(*final(mem), info.root as int, w) == Some(
                    (leaf_entry(w & !0xfffu64, regions@[j].bits), 0int),
                ))
            &&& (forall|w: u64|
                dpb <= w < dpb + 4096 ==> #[trigger] walk_leaf(*final(mem), info.root as int, w)
                    == Some((leaf_entry(w & !0xfffu64, EntryBits::ReadWrite.spec_val()), 0int)))
        }),
{
    let ghost m0 = *mem;
    proof {
        assert forall|i: int| 0 <= i < regions@.len() implies region_lo(#[trigger] regions@[i])
            <= region_hi(regions@[i]) by {
            let reg = regions@[i];
            crate::frame::lemma_align_val_frame(reg.end);
            let rs = reg.start;
            assert(rs & !0xfffu64 <= rs) by (bit_vector);
        }
        lemma_count_free_bounds(m0.flags());
    }
    let ghost grand_total = total_map_pages(regions@, regions@.len() as int);
    let root_addr = match mem.zalloc(1) {
        Some(a) => a,
        None => {
            proof {
                if count_free(m0.flags()) > 0 {
                    let i = choose|i: int| 0 <= i < m0.flags().len() && !taken_flag(m0.flags()[i]);
                    assert(!taken_flag(m0.flags()[i]));
                    assert(run_free(m0.flags(), i, 1));
                    assert(false);
                }
                lemma_total_map_pages_monotone(regions@, 0, regions@.len() as int);
            }
            return Err(MapError::OutOfMemory);
        },
    };
    let root = match mem.resolve_table(root_addr) {
        Some(t) => t,
        None => {
            proof {
                let j = frame_idx(m0.start(), root_addr);
                assert((4096 * j) / 4096 == j) by (nonlinear_arith);
                assert(root_addr % 4096 == 0 && root_addr >= m0.start()) by {
                    let s = m0.start() as int;
                    assert((s + 4096 * j) % 4096 == 0) by (nonlinear_arith)
                        requires
                            s % 4096 == 0,
                    ;
                }
                assert(mem.addr_in_range(root_addr));
                assert(false);
            }
            return Err(MapError::OutOfMemory);
        },
    };
    let ghost rr = root as int;
    proof {
        lemma_flag_values();
        let j = frame_idx(m0.start(), root_addr);
        assert((4096 * j) / 4096 == j) by (nonlinear_arith);
        assert(rr == j);
        assert(taken_last(*mem, rr));
        lemma_wf_fresh_root(*mem, rr);
    }
    let n = regions.len();
    let mut i: usize = 0;
    while i < n
        invariant
            rr == root as int,
            m0 == *old(mem),
            same_shape(m0, *mem),
            root_addr == mem.frame_addr(rr),
            n == regions@.len(),
            0 <= i <= n,
            regions_wf(regions@, device_page),
            wf_root(*mem, rr),
            root < mem.num_frames(),
            grand_total == total_map_pages(regions@, regions@.len() as int),
            forall|i: int|
                0 <= i < regions@.len() ==> region_lo(#[trigger] regions@[i]) <= region_hi(
                    regions@[i],
                ),
            count_free(mem.flags()) >= count_free(m0.flags()) - 1 - 2 * total_map_pages(
                regions@,
                i as int,
            ),
            forall|w: u64|
                w < 0x80_0000_0000 ==> #[trigger] translate(*mem, rr, w) == (if in_some_region(
                    regions@,
                    i as int,
                    w,
                ) {
                    Some(w)
                } else {
                    None
                }),
            forall|j: int, w: u64|
                #![trigger region_lo(regions@[j]), walk_leaf(*mem, rr, w)]
                0 <= j < i && region_lo(regions@[j]) <= w < region_hi(regions@[j]) ==> walk_leaf(
                    *mem,
                    rr,
                    w,
                ) == Some((leaf_entry(w & !0xfffu64, regions@[j].bits), 0int)),
        decreases n - i,
    {
        let reg = &regions[i];
        let ghost m_i = *mem;
        proof {
            assert(regions@[i as int].bits & 0xe != 0);
            assert forall|w: u64|
                (reg.start & !0xfffu64) <= w < spec_align_val(reg.end, 12) implies #[trigger] translate(
                m_i,
                rr,
                w,
            ) is None by {
                assert(w < 0x80_0000_0000) by {
                    assert(region_hi(regions@[i as int]) <= 0x80_0000_0000) by {
                        crate::frame::lemma_align_val_frame(reg.end);
                        let hi = region_hi(regions@[i as int]);
                        if hi > 0x80_0000_0000 {
                            assert(false) by (nonlinear_arith)
                                requires
                                    (hi as int) % 4096 == 0,
                                    0x80_0000_0000 < hi as int && (hi as int) < 0x80_0000_0000
                                        + 4096,
                            ;
                        }
                    }
                }
                if in_some_region(regions@, i as int, w) {
                    let j = choose|j: int|
                        0 <= j < i && region_lo(#[trigger] regions@[j]) <= w < region_hi(
                            regions@[j],
                        );
                    assert(region_hi(regions@[j]) <= region_lo(regions@[i as int]) || region_hi(
                        regions@[i as int],
                    ) <= region_lo(regions@[j]));
                    assert(false);
                }
            }
        }
        let r = id_map_range(mem, root, reg.start, reg.end, reg.bits);
        proof {
            let npages_i = (region_hi(regions@[i as int]) - region_lo(regions@[i as int])) / 4096;
            assert(total_map_pages(regions@, i + 1) == total_map_pages(regions@, i as int)
                + npages_i);
            lemma_total_map_pages_monotone(regions@, i + 1, regions@.len() as int);
        }
        match r {
            Ok(_) => {},
            Err(e) => {
                proof {
                    // the range could not be covered, so the sufficient
                    // reserve cannot have been there
                    let npages_i = (region_hi(regions@[i as int]) - region_lo(
                        regions@[i as int],
                    )) / 4096;
                    assert(count_free(m_i.flags()) < 2 * npages_i);
                    lemma_total_map_pages_monotone(regions@, 0, i as int);
                }
                return Err(e);
            },
        }
        proof {
            let m_n = *mem;
            let lo = region_lo(regions@[i as int]);
            let hi = region_hi(regions@[i as int]);
            assert forall|j: int, w: u64|
                #![trigger region_lo(regions@[j]), walk_leaf(m_n, rr, w)]
                0 <= j < i + 1 && region_lo(regions@[j]) <= w < region_hi(regions@[j]) implies
                walk_leaf(m_n, rr, w) == Some(
                (leaf_entry(w & !0xfffu64, regions@[j].bits), 0int),
            ) by {
                assert(w < 0x80_0000_0000) by {
                    crate::frame::lemma_align_val_frame(regions@[j].end);
                    let hj = region_hi(regions@[j]);
                    if hj > 0x80_0000_0000 {
                        assert(false) by (nonlinear_arith)
                            requires
                                (hj as int) % 4096 == 0,
                                0x80_0000_0000 < hj as int && (hj as int) < 0x80_0000_0000 + 4096,
                        ;
                    }
                }
                if j == i as int {
                    assert(walk_leaf(m_n, rr, w) == Some(
                        (leaf_entry(w & !0xfffu64, regions@[j].bits), 0int),
                    ));
                } else {
                    assert(region_hi(regions@[j]) <= lo || hi <= region_lo(regions@[j]));
                    assert(!(lo <= w < hi));
                    assert(walk_leaf(m_n, rr, w) == walk_leaf(m_i, rr, w));
                    assert(walk_leaf(m_i, rr, w) == Some(
                        (leaf_entry(w & !0xfffu64, regions@[j].bits), 0int),
                    ));
                }
            }
            assert forall|w: u64| w < 0x80_0000_0000 implies #[trigger] translate(m_n, rr, w) == (
            if in_some_region(regions@, i + 1, w) {
                Some(w)
            } else {
                None
            }) by {
                if lo <= w < hi {
                    assert(translate(m_n, rr, w) == Some(w));
                    assert(in_some_region(regions@, i + 1, w));
                } else {
                    assert(translate(m_n, rr, w) == translate(m_i, rr, w));
                    if in_some_region(regions@, i + 1, w) {
                        let j = choose|j: int|
                            0 <= j < i + 1 && region_lo(#[trigger] regions@[j]) <= w < region_hi(
                                regions@[j],
                            );
                        assert(j < i);
                        assert(in_some_region(regions@, i as int, w));
                    } else {
                        assert(!in_some_region(regions@, i as int, w));
                    }
                }
            }
        }
        i = i + 1;
    }
    // the one device page, read/write
    let dpb = device_page & !(PAGE_SIZE - 1);
    let ghost m_d = *mem;
    proof {
        assert(6u64 & 0xe != 0 && 6u64 < 0x400) by (bit_vector);
        assert(dpb % 4096 == 0 && dpb <= device_page && dpb + 4096 <= 0x80_0000_0000) by (
        bit_vector)
            requires
                dpb == device_page & !0xfffu64,
                device_page < 0x80_0000_0000u64,
        ;
        assert(translate(m_d, rr, dpb) is None) by {
            if in_some_region(regions@, n as int, dpb) {
                let j = choose|j: int|
                    0 <= j < n && region_lo(#[trigger] regions@[j]) <= dpb < region_hi(regions@[j]);
                assert(region_hi(regions@[j]) <= dpb || dpb + 4096 <= region_lo(regions@[j]));
                assert(false);
            }
        }
        lemma_unmapped_path_ok(m_d, rr, dpb);
    }
    proof {
        lemma_total_map_pages_monotone(regions@, 0, regions@.len() as int);
    }
    let r = map(mem, root, dpb, dpb, EntryBits::ReadWrite.val(), 0);
    match r {
        Ok(_) => {},
        Err(e) => {
            proof {
                assert(tables_needed(m_d, rr, dpb, 0) > count_free(m_d.flags()));
            }
            return Err(e);
        },
    }
    proof {
        let m_f = *mem;
        assert forall|w: u64| dpb <= w < dpb + 4096 implies #[trigger] walk_leaf(m_f, rr, w)
            == Some((leaf_entry(w & !0xfffu64, EntryBits::ReadWrite.spec_val()), 0int)) by {
            lemma_id_page(w, dpb);
            assert(same_page(w, dpb, 0));
            assert(walk_leaf(m_f, rr, w) == Some(
                (leaf_entry(dpb, EntryBits::ReadWrite.spec_val()), 0int),
            ));
            assert((w & !0xfffu64) == dpb);
        }
        assert forall|j: int, w: u64|
            #![trigger region_lo(regions@[j]), walk_leaf(m_f, rr, w)]
            0 <= j < regions@.len() && region_lo(regions@[j]) <= w < region_hi(regions@[j]) implies
            walk_leaf(m_f, rr, w) == Some(
            (leaf_entry(w & !0xfffu64, regions@[j].bits), 0int),
        ) by {
            assert(w < 0x80_0000_0000) by {
                crate::frame::lemma_align_val_frame(regions@[j].end);
                let hj = region_hi(regions@[j]);
                if hj > 0x80_0000_0000 {
                    assert(false) by (nonlinear_arith)
                        requires
                            (hj as int) % 4096 == 0,
                            0x80_0000_0000 < hj as int && (hj as int) < 0x80_0000_0000 + 4096,
                    ;
                }
            }
            lemma_id_page(w, dpb);
            assert(region_hi(regions@[j]) <= dpb || dpb + 4096 <= region_lo(regions@[j]));
            assert(!same_page(w, dpb, 0));
            assert(walk_leaf(m_f, rr, w) == walk_leaf(m_d, rr, w));
            assert(walk_leaf(m_d, rr, w) == Some(
                (leaf_entry(w & !0xfffu64, regions@[j].bits), 0int),
            ));
        }
        assert forall|w: u64| w < 0x80_0000_0000 implies #[trigger] translate(m_f, rr, w) == (if
        in_some_region(regions@, n as int, w) || (dpb <= w < dpb + 4096) {
            Some(w)
        } else {
            None
        }) by {
            lemma_id_page(w, dpb);
            if same_page(w, dpb, 0) {
                assert(translate(m_f, rr, w) == Some((dpb & !off_mask(0)) | (w & off_mask(0))));
                assert((dpb & !0xfffu64) == dpb) by (bit_vector)
                    requires
                        dpb == device_page & !0xfffu64,
                ;
            } else {
                assert(translate(m_f, rr, w) == translate(m_d, rr, w));
                if in_some_region(regions@, n as int, w) {
                    let j = choose|j: int|
                        0 <= j < n && region_lo(#[trigger] regions@[j]) <= w < region_hi(
                            regions@[j],
                        );
                    assert(region_hi(regions@[j]) <= dpb || dpb + 4096 <= region_lo(regions@[j]));
                }
            }
        }
    }
    let root_ppn = root_addr >> 12;
    let satp = (8u64 << 60) | root_ppn;
    Ok(RootInfo { root, root_addr, satp })
}

impl Memory {
    /// First-fit allocation, as [`FrameAllocator::allocate`]; frame contents
    /// are untouched.
    pub fn allocate(&mut self, pages: u64) -> (r: Option<u64>)
        requires
            old(self).inv(),
            pages >= 1,
        ensures
            final(self).inv(),
            final(self).tables() == old(self).tables(),
            final(self).start() == old(self).start(),
            final(self).num_frames() == old(self).num_frames(),
            match r {
                Some(addr) => ({
                    let i = frame_idx(old(self).start(), addr);
                    &&& addr == old(self).frame_addr(i)
                    &&& 0 <= i
                    &&& i + pages <= old(self).num_frames()
                    &&& run_free(old(self).flags(), i, pages as int)
                    &&& forall|j: int|
                        0 <= j < i ==> !run_free(old(self).flags(), j, pages as int)
                    &&& marked(old(self).flags(), final(self).flags(), i, pages as int)
                    &&& count_free(final(self).flags()) == count_free(old(self).flags()) - pages
                }),
                None => {
                    &&& final(self).flags() == old(self).flags()
                    &&& forall|j: int|
                        0 <= j <= old(self).num_frames() - pages ==> !run_free(
                            old(self).flags(),
                            j,
                            pages as int,
                        )
                },
            },
    {
        self.allocator.allocate(pages)
    }

    /// Zero-allocation: allocates a run and clears every entry of its
    /// frames, as a frame must be before it serves as a table node.
    pub fn zalloc(&mut self, pages: u64) -> (r: Option<u64>)
        requires
            old(self).inv(),
            pages >= 1,
        ensures
            final(self).inv(),
            final(self).start() == old(self).start(),
            final(self).num_frames() == old(self).num_frames(),
            match r {
                Some(addr) => ({
                    let i = frame_idx(old(self).start(), addr);
                    &&& addr == old(self).frame_addr(i)
                    &&& 0 <= i
                    &&& i + pages <= old(self).num_frames()
                    &&& run_free(old(self).flags(), i, pages as int)
                    &&& forall|j: int|
                        0 <= j < i ==> !run_free(old(self).flags(), j, pages as int)
                    &&& marked(old(self).flags(), final(self).flags(), i, pages as int)
                    &&& count_free(final(self).flags()) == count_free(old(self).flags()) - pages
                    &&& forall|t: int|
                        0 <= t < old(self).num_frames() && !(i <= t < i + pages)
                            ==> final(self).tables()[t] == old(self).tables()[t]
                    &&& forall|t: int|
                        i <= t < i + pages ==> table_zeroed(#[trigger] final(self).tables()[t])
                }),
                None => {
                    &&& final(self).flags() == old(self).flags()
                    &&& final(self).tables() == old(self).tables()
                    &&& forall|j: int|
                        0 <= j <= old(self).num_frames() - pages ==> !run_free(
                            old(self).flags(),
                            j,
                            pages as int,
                        )
                },
            },
    {
        let r = self.allocator.allocate(pages);
        match r {
            Some(addr) => {
                let start = self.allocator.alloc_start();
                let nn = self.frames.len();
                let ghost a1 = self.spec_allocator();
                proof {
                    let ii = frame_idx(old(self).start(), addr);
                    assert((4096 * ii) / 4096 == ii) by (nonlinear_arith);
                    assert(ii + pages <= nn);
                }
                let i = ((addr - start) / PAGE_SIZE) as usize;
                let np = pages as usize;
                let mut k: usize = 0;
                while k < np
                    invariant
                        self.spec_allocator() == a1,
                        a1.inv(),
                        old(self).inv(),
                        self.tables().len() == old(self).tables().len(),
                        i + pages <= nn,
                        nn == old(self).num_frames(),
                        np == pages,
                        i == frame_idx(old(self).start(), addr),
                        old(self).num_frames() == a1.num_frames(),
                        k <= pages,
                        self.tables().len() == self.num_frames(),
                        forall|t: int|
                            0 <= t < old(self).num_frames() && !(i <= t < i + k)
                                ==> self.tables()[t] == old(self).tables()[t],
                        forall|t: int| i <= t < i + k ==> table_zeroed(#[trigger] self.tables()[t]),
                        forall|t: int|
                            0 <= t < self.tables().len() ==> (
                            #[trigger] self.tables()[t]).entries@.len() == 512,
                    decreases pages - k,
                {
                    let zt = Table::zeroed();
                    self.frames.set(i + k, zt);
                    k = k + 1;
                }
                Some(addr)
            },
            None => None,
        }
    }

    /// Releases a run, as [`FrameAllocator::dealloc`]; frame contents are
    /// untouched, so a freed table frame still holds its old entries.
    pub fn dealloc(&mut self, ptr: u64) -> (r: Result<(), DeallocError>)
        requires
            old(self).inv(),
            ({
                let i = frame_idx(old(self).start(), ptr);
                (ptr >= old(self).start() && i < old(self).num_frames() && taken_flag(
                    old(self).flags()[i],
                )) ==> (i == 0 || !taken_flag(old(self).flags()[i - 1]) || last_flag(
                    old(self).flags()[i - 1],
                ))
            }),
        ensures
            final(self).inv(),
            final(self).tables() == old(self).tables(),
            final(self).start() == old(self).start(),
            final(self).num_frames() == old(self).num_frames(),
            ({
                let i = frame_idx(old(self).start(), ptr);
                let oor = ptr < old(self).start() || i >= old(self).num_frames();
                &&& ((r == Result::<(), DeallocError>::Err(DeallocError::OutOfRange)) <==> oor)
                &&& ((r == Result::<(), DeallocError>::Err(DeallocError::DoubleFree)) <==> (!oor
                    && !taken_flag(old(self).flags()[i])))
                &&& ((r == Result::<(), DeallocError>::Ok(())) <==> (!oor && taken_flag(
                    old(self).flags()[i],
                )))
                &&& (r matches Err(_) ==> final(self).flags() == old(self).flags())
                &&& (r matches Ok(_) ==> ({
                    let e = crate::frame::run_end(old(self).flags(), i);
                    &&& i <= e < old(self).num_frames()
                    &&& old(self).flags()[e] == 3
                    &&& (forall|k: int| i <= k < e ==> old(self).flags()[k] == 1)
                    &&& (forall|k: int|
                        0 <= k < old(self).num_frames() ==> final(self).flags()[k] == (if i <= k
                            <= e {
                            0u8
                        } else {
                            old(self).flags()[k]
                        }))
                }))
            }),
    {
        self.allocator.dealloc(ptr)
    }
}

} // verus!
