//! Physical page-frame allocator.
//!
//! A fixed pool of 4096-byte frames is described by one descriptor byte per
//! frame.  The descriptors sit conceptually at the very start of the managed
//! heap; the first allocatable frame begins past that metadata array, rounded
//! up to the next frame boundary (the allocation start).  An allocation
//! grants a contiguous run of frames whose descriptors read
//! `Taken, ..., Taken, Taken|Last`: deallocation carries no length and walks
//! forward until the `Last` tag.

use vstd::prelude::*;

verus! {

pub const PAGE_ORDER: u64 = 12;
pub const PAGE_SIZE: u64 = 4096;

/// Rounds `val` up to the next multiple of `1 << order`.
pub open spec fn spec_align_val(val: u64, order: u64) -> u64
    recommends
        order < 64,
        val + (1u64 << order) - 1 <= u64::MAX,
{
    let o = ((1u64 << order) - 1) as u64;
    ((val + o) as u64) & !o
}

pub fn align_val(val: u64, order: u64) -> (r: u64)
    requires
        order < 64,
        val + (1u64 << order) - 1 <= u64::MAX,
    ensures
        r == spec_align_val(val, order),
{
    proof {
        assert(order < 64 ==> 1u64 << order >= 1) by (bit_vector);
    }
    let o = (1u64 << order) - 1;
    (val + o) & !o
}

/// Arithmetic reading of `spec_align_val` at the frame order.
pub proof fn lemma_align_val_frame(val: u64)
    requires
        val <= 0xFFFF_FFFF_FFFF_F000,
    ensures
        spec_align_val(val, 12) % 4096 == 0,
        val <= spec_align_val(val, 12) < val + 4096,
{
    assert((1u64 << 12u64) == 4096) by (bit_vector);
    assert({
        let r = ((val + 4095) as u64) & !4095u64;
        r % 4096 == 0 && val <= r && r < val + 4096
    }) by (bit_vector)
        requires
            val <= 0xFFFF_FFFF_FFFF_F000u64,
    ;
}

/// Descriptor flag bits: bit 0 marks a taken frame, bit 1 the last frame of
/// its run.
#[derive(Clone, Copy)]
pub enum PageBits {
    Empty,
    Taken,
    Last,
}

impl PageBits {
    pub open spec fn spec_val(self) -> u8 {
        match self {
            PageBits::Empty => 0,
            PageBits::Taken => 1,
            PageBits::Last => 2,
        }
    }

    pub fn val(self) -> (v: u8)
        ensures
            v == self.spec_val(),
    {
        match self {
            PageBits::Empty => 0,
            PageBits::Taken => 1,
            PageBits::Last => 2,
        }
    }
}

pub open spec fn taken_flag(f: u8) -> bool {
    f & 1 != 0
}

pub open spec fn last_flag(f: u8) -> bool {
    f & 2 != 0
}

/// The flag values a descriptor can actually carry: free, taken mid-run,
/// taken last-of-run.
pub proof fn lemma_flag_values()
    ensures
        !taken_flag(0u8),
        !last_flag(0u8),
        taken_flag(1u8),
        !last_flag(1u8),
        taken_flag(3u8),
        last_flag(3u8),
        0u8 | 1u8 == 1u8,
        1u8 | 2u8 == 3u8,
        3u8 & !1u8 == 2u8,
{
    assert(0u8 & 1 == 0 && 0u8 & 2 == 0 && 1u8 & 1 == 1 && 1u8 & 2 == 0 && 3u8 & 1 == 1
        && 3u8 & 2 == 2 && 0u8 | 1u8 == 1u8 && 1u8 | 2u8 == 3u8 && 3u8 & !1u8 == 2u8) by (bit_vector);
}

/// One frame descriptor.
pub struct Page {
    flags: u8,
}

impl Page {
    pub closed spec fn spec_flags(&self) -> u8 {
        self.flags
    }

    pub fn new() -> (p: Page)
        ensures
            p.spec_flags() == 0,
    {
        Page { flags: 0 }
    }

    pub fn is_last(&self) -> (r: bool)
        ensures
            r == last_flag(self.spec_flags()),
    {
        self.flags & PageBits::Last.val() != 0
    }

    pub fn is_taken(&self) -> (r: bool)
        ensures
            r == taken_flag(self.spec_flags()),
    {
        self.flags & PageBits::Taken.val() != 0
    }

    pub fn is_free(&self) -> (r: bool)
        ensures
            r == !taken_flag(self.spec_flags()),
    {
        !self.is_taken()
    }

    pub fn clear(&mut self)
        ensures
            final(self).spec_flags() == 0,
    {
        self.flags = PageBits::Empty.val();
    }

    pub fn set_flag(&mut self, flag: PageBits)
        ensures
            final(self).spec_flags() == old(self).spec_flags() | flag.spec_val(),
    {
        self.flags = self.flags | flag.val();
    }

    pub fn clear_flag(&mut self, flag: PageBits)
        ensures
            final(self).spec_flags() == old(self).spec_flags() & !flag.spec_val(),
    {
        self.flags = self.flags & !flag.val();
    }
}

/// Every descriptor holds one of the three real flag values.
pub open spec fn flags_ok(s: Seq<u8>) -> bool {
    forall|i: int| 0 <= i < s.len() ==> (#[trigger] s[i] == 0 || s[i] == 1 || s[i] == 3)
}

/// Scanning forward from a taken descriptor reaches a Last tag before a free
/// one: every run is terminated.
pub open spec fn runs_terminated(s: Seq<u8>) -> bool {
    forall|i: int|
        0 <= i < s.len() && taken_flag(#[trigger] s[i]) && !last_flag(s[i]) ==> i + 1 < s.len()
            && taken_flag(s[i + 1])
}

/// Frames `[i, i + n)` are all free.
pub open spec fn run_free(s: Seq<u8>, i: int, n: int) -> bool {
    forall|k: int| i <= k < i + n ==> !taken_flag(#[trigger] s[k])
}

/// `s1` is `s0` with the run `[i, i + n)` marked taken, Last on its final
/// frame.
pub open spec fn marked(s0: Seq<u8>, s1: Seq<u8>, i: int, n: int) -> bool {
    &&& s1.len() == s0.len()
    &&& forall|k: int|
        0 <= k < s0.len() ==> #[trigger] s1[k] == (if i <= k < i + n - 1 {
            1u8
        } else if k == i + n - 1 {
            3u8
        } else {
            s0[k]
        })
}

/// Index of the first Last-tagged descriptor at or after `i`.
pub open spec fn run_end(s: Seq<u8>, i: int) -> int
    decreases s.len() - i,
{
    if i < 0 || i >= s.len() {
        i
    } else if last_flag(s[i]) {
        i
    } else {
        run_end(s, i + 1)
    }
}

/// Number of free frames.
pub open spec fn count_free(s: Seq<u8>) -> int
    decreases s.len(),
{
    if s.len() == 0 {
        0
    } else {
        count_free(s.drop_last()) + if taken_flag(s.last()) {
            0int
        } else {
            1int
        }
    }
}

/// Frame index that an address resolves to, counted from the allocation
/// start.
pub open spec fn frame_idx(alloc_start: u64, addr: u64) -> int {
    (addr - alloc_start) / 4096
}

pub proof fn lemma_count_free_bounds(s: Seq<u8>)
    ensures
        0 <= count_free(s) <= s.len(),
        count_free(s) > 0 <==> exists|i: int| 0 <= i < s.len() && !taken_flag(s[i]),
    decreases s.len(),
{
    if s.len() > 0 {
        lemma_count_free_bounds(s.drop_last());
        if count_free(s) > 0 {
            if !taken_flag(s.last()) {
                assert(!taken_flag(s[s.len() - 1]));
            } else {
                let i = choose|i: int|
                    0 <= i < s.drop_last().len() && !taken_flag(s.drop_last()[i]);
                assert(!taken_flag(s[i]));
            }
        }
        if exists|i: int| 0 <= i < s.len() && !taken_flag(s[i]) {
            let i = choose|i: int| 0 <= i < s.len() && !taken_flag(s[i]);
            if i < s.len() - 1 {
                assert(!taken_flag(s.drop_last()[i]));
            }
        }
    }
}

/// Marking a free run of length `n` taken lowers the free count by exactly
/// `n`.
pub proof fn lemma_count_free_marked(s0: Seq<u8>, s1: Seq<u8>, i: int, n: int)
    requires
        s1.len() == s0.len(),
        0 <= i,
        0 <= n,
        i + n <= s0.len(),
        forall|k: int| 0 <= k < s0.len() && !(i <= k < i + n) ==> s1[k] == s0[k],
        forall|k: int| i <= k < i + n ==> !taken_flag(#[trigger] s0[k]) && taken_flag(s1[k]),
    ensures
        count_free(s1) == count_free(s0) - n,
    decreases s0.len(),
{
    if s0.len() == 0 {
    } else {
        let m = s0.len() - 1;
        assert(forall|k: int| 0 <= k < m ==> #[trigger] s0.drop_last()[k] == s0[k]);
        assert(forall|k: int| 0 <= k < m ==> #[trigger] s1.drop_last()[k] == s1[k]);
        if n == 0 {
            assert(s1 =~= s0);
        } else if m >= i + n || m < i {
            lemma_count_free_marked(s0.drop_last(), s1.drop_last(), i, n);
            assert(s1.last() == s0.last());
        } else {
            // the run reaches the end: m == i + n - 1
            lemma_count_free_marked(s0.drop_last(), s1.drop_last(), i, n - 1);
            assert(!taken_flag(s0.last()) && taken_flag(s1.last()));
        }
    }
}

/// The first Last tag at or after the start of a freshly marked run is the
/// run's final frame.
pub proof fn lemma_run_end_marked(s1: Seq<u8>, i: int, n: int, j: int)
    requires
        0 <= i <= j,
        1 <= n,
        i + n <= s1.len(),
        j < i + n,
        forall|k: int| i <= k < i + n - 1 ==> #[trigger] s1[k] == 1u8,
        s1[i + n - 1] == 3u8,
    ensures
        run_end(s1, j) == i + n - 1,
    decreases i + n - j,
{
    lemma_flag_values();
    if j == i + n - 1 {
    } else {
        lemma_run_end_marked(s1, i, n, j + 1);
    }
}

/// LAW: allocating a run and then deallocating the address it returned
/// restores every descriptor to its previous state.  The deallocation is
/// accepted: the run's first frame is taken and starts its own run, so the
/// walk stops exactly at the run's Last tag and clears the whole run, never
/// the fatal tiers.
pub proof fn lemma_alloc_then_dealloc_restores(s0: Seq<u8>, s1: Seq<u8>, s2: Seq<u8>, i: int, n: int)
    requires
        flags_ok(s0),
        runs_terminated(s0),
        1 <= n,
        0 <= i,
        i + n <= s0.len(),
        run_free(s0, i, n),
        marked(s0, s1, i, n),
        s2.len() == s1.len(),
        forall|k: int|
            0 <= k < s1.len() ==> #[trigger] s2[k] == (if i <= k <= run_end(s1, i) {
                0u8
            } else {
                s1[k]
            }),
    ensures
        s2 == s0,
        taken_flag(s1[i]),
        i == 0 || !taken_flag(s1[i - 1]) || last_flag(s1[i - 1]),
        run_end(s1, i) == i + n - 1,
{
    lemma_flag_values();
    if i > 0 && taken_flag(s0[i - 1]) && !last_flag(s0[i - 1]) {
        // a run carrying over into frame i would contradict its freeness
        assert(taken_flag(s0[i]));
        assert(!taken_flag(s0[i]));
    }
    lemma_run_end_marked(s1, i, n, i);
    assert forall|k: int| 0 <= k < s0.len() implies s2[k] == s0[k] by {
        if i <= k < i + n {
            assert(!taken_flag(s0[k]));
            assert(s0[k] == 0 || s0[k] == 1 || s0[k] == 3);
        }
    }
    assert(s2 =~= s0);
}

/// LAW: two allocations whose second run was granted after the first never
/// share a frame: the first run is taken while the second is still free.
pub proof fn lemma_allocs_disjoint(s0: Seq<u8>, s1: Seq<u8>, i1: int, n1: int, i2: int, n2: int)
    requires
        1 <= n1,
        1 <= n2,
        0 <= i1,
        i1 + n1 <= s0.len(),
        marked(s0, s1, i1, n1),
        0 <= i2,
        i2 + n2 <= s1.len(),
        run_free(s1, i2, n2),
    ensures
        i1 + n1 <= i2 || i2 + n2 <= i1,
{
    lemma_flag_values();
    if !(i1 + n1 <= i2 || i2 + n2 <= i1) {
        let k = if i1 <= i2 { i2 } else { i1 };
        assert(i1 <= k < i1 + n1 && i2 <= k < i2 + n2);
        assert(taken_flag(s1[k]));
        assert(!taken_flag(s1[k]));
    }
}

/// The frame allocator: one descriptor per frame of the managed heap, plus
/// the allocation-start offset past the metadata array.
pub struct FrameAllocator {
    pages: Vec<Page>,
    heap_start: u64,
    heap_size: u64,
    alloc_start: u64,
}

impl FrameAllocator {
    /// The descriptor flags, one byte per frame.
    pub closed spec fn flags(&self) -> Seq<u8> {
        self.pages@.map_values(|p: Page| p.spec_flags())
    }

    pub closed spec fn spec_heap_start(&self) -> u64 {
        self.heap_start
    }

    pub closed spec fn spec_heap_size(&self) -> u64 {
        self.heap_size
    }

    pub closed spec fn spec_alloc_start(&self) -> u64 {
        self.alloc_start
    }

    pub open spec fn num_frames(&self) -> int {
        self.flags().len() as int
    }

    /// The flags view indexes the descriptor vector pointwise.
    proof fn lemma_flags_index(&self)
        ensures
            self.flags().len() == self.pages@.len(),
            forall|i: int|
                0 <= i < self.pages@.len() ==> #[trigger] self.flags()[i]
                    == self.pages@[i].spec_flags(),
    {
    }

    pub open spec fn inv(&self) -> bool {
        &&& self.num_frames() == self.spec_heap_size() as int / 4096
        &&& self.spec_alloc_start() % 4096 == 0
        &&& self.spec_heap_start() + self.num_frames() <= self.spec_alloc_start()
        &&& self.spec_alloc_start() < self.spec_heap_start() + self.num_frames() + 4096
        &&& self.spec_alloc_start() + 4096 * self.num_frames() < 0x100_0000_0000_0000
        &&& flags_ok(self.flags())
        &&& runs_terminated(self.flags())
    }

    /// Physical address of frame `i`.
    pub open spec fn frame_addr(&self, i: int) -> u64 {
        (self.spec_alloc_start() + 4096 * i) as u64
    }

    pub fn alloc_start(&self) -> (r: u64)
        ensures
            r == self.spec_alloc_start(),
    {
        self.alloc_start
    }

    pub fn num_pages(&self) -> (r: usize)
        ensures
            r == self.num_frames(),
    {
        self.pages.len()
    }

    /// Sets up the allocator over a heap of `heap_size` bytes at
    /// `heap_start`: every descriptor is cleared to free, and the allocation
    /// start is the heap base plus the descriptor footprint, aligned up to
    /// the frame size.
    pub fn init(heap_start: u64, heap_size: u64) -> (a: FrameAllocator)
        requires
            heap_start <= 0x40_0000_0000_0000,
            heap_size <= 0x40_0000_0000,
        ensures
            a.inv(),
            a.spec_heap_start() == heap_start,
            a.spec_heap_size() == heap_size,
            a.num_frames() == heap_size as int / 4096,
            forall|i: int| 0 <= i < a.num_frames() ==> a.flags()[i] == 0,
            a.spec_alloc_start() == spec_align_val((heap_start + heap_size as int / 4096) as u64, 12),
    {
        let num_pages = heap_size / PAGE_SIZE;
        let mut pages: Vec<Page> = Vec::new();
        let mut i: u64 = 0;
        while i < num_pages
            invariant
                i <= num_pages,
                num_pages == heap_size as int / 4096,
                pages@.len() == i,
                forall|k: int| 0 <= k < i ==> pages@[k].spec_flags() == 0,
            decreases num_pages - i,
        {
            pages.push(Page { flags: 0 });
            i = i + 1;
        }
        let meta_end = heap_start + num_pages;
        proof {
            assert((1u64 << 12u64) == 4096) by (bit_vector);
            lemma_align_val_frame(meta_end);
        }
        let alloc_start = align_val(meta_end, PAGE_ORDER);
        let a = FrameAllocator { pages, heap_start, heap_size, alloc_start };
        proof {
            lemma_flag_values();
            assert(forall|k: int| 0 <= k < a.flags().len() ==> a.flags()[k] == 0);
            assert(flags_ok(a.flags()));
            assert(runs_terminated(a.flags()));
        }
        a
    }

    /// First-fit allocation of a run of `pages` contiguous free frames.
    /// Returns the physical address of the run's first frame, or `None` when
    /// and only when no contiguous run of `pages` free frames exists.
    pub fn allocate(&mut self, pages: u64) -> (r: Option<u64>)
        requires
            old(self).inv(),
            pages >= 1,
        ensures
            final(self).inv(),
            final(self).spec_heap_start() == old(self).spec_heap_start(),
            final(self).spec_heap_size() == old(self).spec_heap_size(),
            final(self).spec_alloc_start() == old(self).spec_alloc_start(),
            final(self).num_frames() == old(self).num_frames(),
            match r {
                Some(addr) => ({
                    let i = frame_idx(old(self).spec_alloc_start(), addr);
                    &&& addr == old(self).frame_addr(i)
                    &&& 0 <= i
                    &&& i + pages <= old(self).num_frames()
                    &&& run_free(old(self).flags(), i, pages as int)
                    &&& forall|j: int|
                        0 <= j < i ==> !run_free(old(self).flags(), j, pages as int)
                    &&& marked(old(self).flags(), final(self).flags(), i, pages as int)
                    &&& count_free(final(self).flags()) == count_free(old(self).flags()) - pages
                }),
                None => {
                    &&& final(self).flags() == old(self).flags()
                    &&& forall|j: int|
                        0 <= j <= old(self).num_frames() - pages ==> !run_free(
                            old(self).flags(),
                            j,
                            pages as int,
                        )
                },
            },
    {
        let n = self.pages.len() as u64;
        proof {
            lemma_flag_values();
            assert(n <= usize::MAX as u64);
        }
        if pages > n {
            return None;
        }
        let mut i: u64 = 0;
        while i + pages <= n
            invariant
                old(self).inv(),
                *self == *old(self),
                pages >= 1,
                pages <= n,
                n == old(self).num_frames(),
                        n <= usize::MAX as u64,
                i <= n,
                forall|j: int| 0 <= j < i ==> !run_free(old(self).flags(), j, pages as int),
            decreases n - i,
        {
            let mut j: u64 = i;
            while j < i + pages && !self.pages[j as usize].is_taken()
                invariant
                    old(self).inv(),
                    *self == *old(self),
                    n == old(self).num_frames(),
                        n <= usize::MAX as u64,
                    i <= j <= i + pages,
                    i + pages <= n,
                    run_free(old(self).flags(), i as int, j - i),
                decreases i + pages - j,
            {
                j = j + 1;
            }
            if j == i + pages {
                // a free run: mark it taken, Last on its final frame
                let ghost s0 = self.flags();
                let mut k: u64 = i;
                while k < i + pages - 1
                    invariant
                        old(self).inv(),
                        s0 == old(self).flags(),
                        run_free(s0, i as int, pages as int),
                        pages >= 1,
                        pages <= n,
                        i + pages <= n,
                        n == old(self).num_frames(),
                        n <= usize::MAX as u64,
                        i <= k <= i + pages - 1,
                        self.heap_start == old(self).heap_start,
                        self.heap_size == old(self).heap_size,
                        self.alloc_start == old(self).alloc_start,
                        self.flags().len() == s0.len(),
                        forall|m: int|
                            0 <= m < s0.len() ==> self.flags()[m] == (if i <= m < k {
                                1u8
                            } else {
                                s0[m]
                            }),
                    decreases i + pages - 1 - k,
                {
                    proof {
                        lemma_flag_values();
                        self.lemma_flags_index();
                        assert(s0[k as int] == 0);
                        assert(self.flags()[k as int] == s0[k as int]);
                        assert(self.pages@[k as int].spec_flags() == 0);
                    }
                    let ghost pre = self.pages@;
                    let ghost fpre = self.flags();
                    proof {
                        assert(forall|m: int|
                            0 <= m < pre.len() ==> #[trigger] pre[m].spec_flags() == fpre[m]);
                    }
                    self.pages[k as usize].set_flag(PageBits::Taken);
                    proof {
                        self.lemma_flags_index();
                        assert(self.pages@ == pre.update(k as int, self.pages@[k as int]));
                        assert(self.pages@[k as int].spec_flags() == 1u8);
                        assert forall|m: int| 0 <= m < s0.len() implies self.flags()[m] == (
                        if i <= m < k + 1 {
                            1u8
                        } else {
                            s0[m]
                        }) by {
                            assert(self.flags()[m] == self.pages@[m].spec_flags());
                            if m != k {
                                assert(self.pages@[m] == pre[m]);
                                assert(pre[m].spec_flags() == fpre[m]);
                            }
                        }
                    }
                    k = k + 1;
                }
                proof {
                    lemma_flag_values();
                    self.lemma_flags_index();
                    assert(s0[i + pages - 1] == 0);
                    assert(self.flags()[i + pages - 1] == s0[i + pages - 1]);
                    assert(self.pages@[i + pages - 1].spec_flags() == 0);
                }
                let ghost mid = self.flags();
                let ghost pre1 = self.pages@;
                proof {
                    assert(forall|m: int|
                        0 <= m < pre1.len() ==> #[trigger] pre1[m].spec_flags() == mid[m]);
                }
                self.pages[(i + pages - 1) as usize].set_flag(PageBits::Taken);
                proof {
                    self.lemma_flags_index();
                    assert(self.pages@[i + pages - 1].spec_flags() == 1u8);
                    assert forall|m: int| 0 <= m < s0.len() implies self.flags()[m] == (
                    if m == i + pages - 1 {
                        1u8
                    } else {
                        mid[m]
                    }) by {
                        assert(self.flags()[m] == self.pages@[m].spec_flags());
                        if m != i + pages - 1 {
                            assert(self.pages@[m] == pre1[m]);
                            assert(pre1[m].spec_flags() == mid[m]);
                        }
                    }
                }
                let ghost mid2 = self.flags();
                let ghost pre2 = self.pages@;
                proof {
                    assert(forall|m: int|
                        0 <= m < pre2.len() ==> #[trigger] pre2[m].spec_flags() == mid2[m]);
                }
                self.pages[(i + pages - 1) as usize].set_flag(PageBits::Last);
                proof {
                    self.lemma_flags_index();
                    assert(self.pages@[i + pages - 1].spec_flags() == 3u8);
                    assert forall|m: int| 0 <= m < s0.len() implies self.flags()[m] == (
                    if m == i + pages - 1 {
                        3u8
                    } else {
                        mid2[m]
                    }) by {
                        assert(self.flags()[m] == self.pages@[m].spec_flags());
                        if m != i + pages - 1 {
                            assert(self.pages@[m] == pre2[m]);
                            assert(pre2[m].spec_flags() == mid2[m]);
                        }
                    }
                }
                let addr = self.alloc_start + PAGE_SIZE * i;
                proof {
                    lemma_flag_values();
                    let s0 = old(self).flags();
                    let s1 = self.flags();
                    assert((4096 * (i as int)) / 4096 == i as int) by (nonlinear_arith);
                    assert(frame_idx(old(self).spec_alloc_start(), addr) == i as int);
                    assert(marked(s0, s1, i as int, pages as int));
                    assert forall|m: int|
                        0 <= m < s1.len() && taken_flag(s1[m]) && !last_flag(s1[m]) implies m + 1
                        < s1.len() && taken_flag(s1[m + 1]) by {
                        if i <= m < i + pages - 1 {
                            assert(taken_flag(s1[m + 1]));
                        } else if m == i + pages - 1 {
                            assert(last_flag(s1[m]));
                        } else {
                            assert(s1[m] == s0[m]);
                            assert(taken_flag(s0[m + 1]));
                            assert(!(i <= m + 1 < i + pages));
                        }
                    }
                    assert(runs_terminated(s1));
                    assert(flags_ok(s1));
                    lemma_count_free_marked(s0, s1, i as int, pages as int);
                }
                return Some(addr);
            }
            proof {
                self.lemma_flags_index();
                assert(taken_flag(old(self).flags()[j as int]));
                assert(!run_free(old(self).flags(), i as int, pages as int));
            }
            i = i + 1;
        }
        None
    }

    /// Releases the run that `ptr` points at.  Walks forward from the frame
    /// the address resolves to, clearing descriptors until the run's Last
    /// tag.  The two fatal tiers of the design are surfaced as errors: an
    /// address outside the managed pool, and a frame that is already free
    /// (a double free).
    #[verifier::rlimit(100)]
    pub fn dealloc(&mut self, ptr: u64) -> (r: Result<(), DeallocError>)
        requires
            old(self).inv(),
            // the address is one that allocation returned: it resolves to the
            // start of a run, never into its middle
            ({
                let i = frame_idx(old(self).spec_alloc_start(), ptr);
                (ptr >= old(self).spec_alloc_start() && i < old(self).num_frames() && taken_flag(
                    old(self).flags()[i],
                )) ==> (i == 0 || !taken_flag(old(self).flags()[i - 1]) || last_flag(
                    old(self).flags()[i - 1],
                ))
            }),
        ensures
            final(self).inv(),
            final(self).spec_heap_start() == old(self).spec_heap_start(),
            final(self).spec_heap_size() == old(self).spec_heap_size(),
            final(self).spec_alloc_start() == old(self).spec_alloc_start(),
            final(self).num_frames() == old(self).num_frames(),
            ({
                let i = frame_idx(old(self).spec_alloc_start(), ptr);
                let oor = ptr < old(self).spec_alloc_start() || i >= old(self).num_frames();
                &&& ((r == Result::<(), DeallocError>::Err(DeallocError::OutOfRange)) <==> oor)
                &&& ((r == Result::<(), DeallocError>::Err(DeallocError::DoubleFree)) <==> (!oor
                    && !taken_flag(old(self).flags()[i])))
                &&& ((r == Result::<(), DeallocError>::Ok(())) <==> (!oor && taken_flag(
                    old(self).flags()[i],
                )))
                &&& (r matches Err(_) ==> final(self).flags() == old(self).flags())
                &&& (r matches Ok(_) ==> ({
                    let e = run_end(old(self).flags(), i);
                    &&& i <= e < old(self).num_frames()
                    &&& old(self).flags()[e] == 3
                    &&& (forall|k: int| i <= k < e ==> old(self).flags()[k] == 1)
                    &&& (forall|k: int|
                        0 <= k < old(self).num_frames() ==> final(self).flags()[k] == (if i <= k
                            <= e {
                            0u8
                        } else {
                            old(self).flags()[k]
                        }))
                }))
            }),
    {
        let n = self.pages.len() as u64;
        proof {
            lemma_flag_values();
            self.lemma_flags_index();
            assert(n <= usize::MAX as u64);
        }
        if ptr < self.alloc_start {
            return Err(DeallocError::OutOfRange);
        }
        let idx = (ptr - self.alloc_start) / PAGE_SIZE;
        if idx >= n {
            return Err(DeallocError::OutOfRange);
        }
        if !self.pages[idx as usize].is_taken() {
            return Err(DeallocError::DoubleFree);
        }
        let ghost s0 = old(self).flags();
        let mut j = idx;
        while self.pages[j as usize].is_taken() && !self.pages[j as usize].is_last()
            invariant
                old(self).inv(),
                s0 == old(self).flags(),
                n == old(self).num_frames(),
                n <= usize::MAX as u64,
                idx <= j < n,
                taken_flag(s0[j as int]),
                run_end(s0, idx as int) == run_end(s0, j as int),
                forall|k: int| idx <= k < j ==> s0[k] == 1,
                self.heap_start == old(self).heap_start,
                self.heap_size == old(self).heap_size,
                self.alloc_start == old(self).alloc_start,
                self.flags().len() == s0.len(),
                forall|m: int|
                    0 <= m < s0.len() ==> self.flags()[m] == (if idx <= m < j {
                        0u8
                    } else {
                        s0[m]
                    }),
            decreases n - j,
        {
            proof {
                lemma_flag_values();
                self.lemma_flags_index();
                assert(self.flags()[j as int] == s0[j as int]);
                assert(s0[j as int] == 1);
            }
            let ghost pre = self.pages@;
            let ghost fpre = self.flags();
            proof {
                assert(forall|m: int|
                    0 <= m < pre.len() ==> #[trigger] pre[m].spec_flags() == fpre[m]);
            }
            self.pages[j as usize].clear();
            proof {
                self.lemma_flags_index();
                assert forall|m: int| 0 <= m < s0.len() implies self.flags()[m] == (if idx <= m < j
                    + 1 {
                    0u8
                } else {
                    s0[m]
                }) by {
                    assert(self.flags()[m] == self.pages@[m].spec_flags());
                    if m != j {
                        assert(self.pages@[m] == pre[m]);
                        assert(pre[m].spec_flags() == fpre[m]);
                    }
                }
            }
            j = j + 1;
            proof {
                // the walked-over frame was taken and not Last, so the run
                // goes on: the next descriptor is taken too
                assert(taken_flag(s0[j - 1]) && !last_flag(s0[j - 1]));
                assert(j < n && taken_flag(s0[j as int]));
            }
        }
        proof {
            lemma_flag_values();
            self.lemma_flags_index();
            assert(self.flags()[j as int] == s0[j as int]);
            assert(last_flag(s0[j as int]));
            assert(s0[j as int] == 3);
            assert(run_end(s0, j as int) == j as int);
        }
        let ghost pre = self.pages@;
        let ghost fpre = self.flags();
        proof {
            assert(forall|m: int| 0 <= m < pre.len() ==> #[trigger] pre[m].spec_flags() == fpre[m]);
        }
        self.pages[j as usize].clear();
        proof {
            lemma_flag_values();
            self.lemma_flags_index();
            let s1 = self.flags();
            assert forall|m: int| 0 <= m < s0.len() implies s1[m] == (if idx <= m <= j {
                0u8
            } else {
                s0[m]
            }) by {
                assert(s1[m] == self.pages@[m].spec_flags());
                if m != j {
                    assert(self.pages@[m] == pre[m]);
                    assert(pre[m].spec_flags() == fpre[m]);
                }
            }
            assert(flags_ok(s1));
            assert forall|m: int|
                0 <= m < s1.len() && taken_flag(s1[m]) && !last_flag(s1[m]) implies m + 1 < s1.len()
                && taken_flag(s1[m + 1]) by {
                assert(s1[m] == s0[m]);
                assert(taken_flag(s0[m + 1]));
                if idx <= m + 1 <= j {
                    if m + 1 == idx {
                        // excluded: the address resolves to the start of a run
                        assert(false);
                    } else {
                        // then m itself lies inside the cleared run
                        assert(idx <= m <= j);
                        assert(s1[m] == 0u8);
                        assert(false);
                    }
                }
            }
            assert(runs_terminated(s1));
        }
        Ok(())
    }
}

/// A frame at which a run begins: taken, with no run carrying over from the
/// previous frame.
pub open spec fn is_run_start(s: Seq<u8>, i: int) -> bool {
    &&& 0 <= i < s.len()
    &&& taken_flag(s[i])
    &&& (i == 0 || !taken_flag(s[i - 1]) || last_flag(s[i - 1]))
}

/// The allocated runs at or after `from`, as (first frame, last frame)
/// pairs.
pub open spec fn spec_runs(s: Seq<u8>, from: int) -> Seq<(int, int)>
    decreases s.len() - from,
{
    if from < 0 || from >= s.len() {
        Seq::empty()
    } else if is_run_start(s, from) {
        seq![(from, run_end(s, from))] + spec_runs(s, from + 1)
    } else {
        spec_runs(s, from + 1)
    }
}

/// The rows of the report match the run pairs: addresses of first and last
/// byte, and the page count.
pub open spec fn report_rows_ok(a: FrameAllocator, rp: Seq<(int, int)>, rows: Seq<RunReport>) -> bool {
    &&& rows.len() == rp.len()
    &&& forall|k: int|
        #![trigger rp[k]]
        0 <= k < rp.len() ==> 0 <= rp[k].0 <= rp[k].1 < a.num_frames() && rows[k].start
            == a.frame_addr(rp[k].0) && rows[k].end == (a.frame_addr(rp[k].1) + 4095) as u64
            && rows[k].pages == rp[k].1 - rp[k].0 + 1
}

/// One allocated run as the diagnostic report lists it: the address of its
/// first byte, the address of its last byte, and its page count.
pub struct RunReport {
    pub start: u64,
    pub end: u64,
    pub pages: u64,
}

/// The diagnostic report: every allocated run, and the allocated and free
/// frame totals.
pub struct AllocationReport {
    pub runs: Vec<RunReport>,
    pub allocated: u64,
    pub free: u64,
}

impl FrameAllocator {
    /// Non-mutating traversal producing the table of allocated runs and the
    /// allocated/free totals.
    #[verifier::rlimit(100)]
    pub fn allocation_report(&self) -> (rep: AllocationReport)
        requires
            self.inv(),
        ensures
            rep.free == count_free(self.flags()),
            rep.allocated == self.num_frames() - count_free(self.flags()),
            report_rows_ok(*self, spec_runs(self.flags(), 0), rep.runs@),
    {
        let ghost s = self.flags();
        let n = self.pages.len();
        proof {
            lemma_flag_values();
            self.lemma_flags_index();
            lemma_count_free_bounds(s);
        }
        // totals
        let mut free_count: u64 = 0;
        let mut i: usize = 0;
        while i < n
            invariant
                self.inv(),
                s == self.flags(),
                n == self.num_frames(),
                0 <= i <= n,
                free_count == count_free(s.take(i as int)),
                free_count <= i,
            decreases n - i,
        {
            proof {
                self.lemma_flags_index();
                assert(s.take(i + 1).drop_last() =~= s.take(i as int));
                assert(s.take(i + 1).last() == s[i as int]);
            }
            if self.pages[i].is_free() {
                free_count = free_count + 1;
            }
            i = i + 1;
        }
        proof {
            assert(s.take(n as int) =~= s);
            lemma_count_free_bounds(s);
        }
        let allocated = (n as u64) - free_count;
        // the run table
        let mut runs: Vec<RunReport> = Vec::new();
        let ghost mut rp: Seq<(int, int)> = Seq::empty();
        let mut i: usize = 0;
        while i < n
            invariant
                self.inv(),
                s == self.flags(),
                n == self.num_frames(),
                n <= usize::MAX,
                0 <= i <= n,
                spec_runs(s, 0) =~= rp + spec_runs(s, i as int),
                report_rows_ok(*self, rp, runs@),
            decreases n - i,
        {
            proof {
                lemma_flag_values();
                self.lemma_flags_index();
            }
            let run_here = self.pages[i].is_taken() && (i == 0 || !self.pages[i - 1].is_taken()
                || self.pages[i - 1].is_last());
            if run_here {
                // walk to the run's Last tag
                let mut j = i;
                while self.pages[j].is_taken() && !self.pages[j].is_last()
                    invariant
                        self.inv(),
                        s == self.flags(),
                        n == self.num_frames(),
                        n <= usize::MAX,
                        i <= j < n,
                        taken_flag(s[j as int]),
                        run_end(s, i as int) == run_end(s, j as int),
                    decreases n - j,
                {
                    proof {
                        lemma_flag_values();
                        self.lemma_flags_index();
                        assert(taken_flag(s[j as int]) && !last_flag(s[j as int]));
                        assert(j + 1 < n && taken_flag(s[j + 1]));
                    }
                    j = j + 1;
                }
                proof {
                    lemma_flag_values();
                    self.lemma_flags_index();
                    assert(last_flag(s[j as int]));
                    assert(run_end(s, j as int) == j as int);
                    assert(is_run_start(s, i as int));
                    assert(spec_runs(s, i as int) =~= seq![(i as int, j as int)] + spec_runs(
                        s,
                        i + 1,
                    ));
                }
                let start = self.alloc_start + PAGE_SIZE * (i as u64);
                let end = self.alloc_start + PAGE_SIZE * (j as u64) + (PAGE_SIZE - 1);
                let ghost runs0 = runs@;
                let ghost rp0 = rp;
                runs.push(RunReport { start, end, pages: (j - i + 1) as u64 });
                proof {
                    rp = rp + seq![(i as int, j as int)];
                }
                proof {
                    assert forall|k: int|
                        #![trigger rp[k]]
                        0 <= k < rp.len() implies 0 <= rp[k].0 <= rp[k].1 < self.num_frames()
                        && runs@[k].start == self.frame_addr(rp[k].0) && runs@[k].end == (
                    self.frame_addr(rp[k].1) + 4095) as u64 && runs@[k].pages == rp[k].1 - rp[k].0
                        + 1 by {
                        if k < rp0.len() {
                            assert(runs@[k] == runs0[k]);
                            assert(rp[k] == rp0[k]);
                        } else {
                            assert(rp[k] == (i as int, j as int));
                            assert(runs@[k] == RunReport { start, end, pages: (j - i + 1) as u64 });
                        }
                    }
                    assert(runs@.len() == rp.len());
                    assert(report_rows_ok(*self, rp, runs@));
                }
            } else {
                proof {
                    self.lemma_flags_index();
                    assert(!is_run_start(s, i as int));
                    assert(spec_runs(s, i as int) =~= spec_runs(s, i + 1));
                }
            }
            i = i + 1;
        }
        proof {
            assert(spec_runs(s, n as int) =~= Seq::empty());
            assert(rp =~= spec_runs(s, 0));
        }
        AllocationReport { runs, allocated, free: free_count }
    }
}

/// The fatal tiers of deallocation, surfaced as values.
#[derive(Clone, Copy, PartialEq, Eq, Structural, Debug)]
pub enum DeallocError {
    /// The address does not resolve to a frame of the managed pool.
    OutOfRange,
    /// The frame the address resolves to is already free.
    DoubleFree,
}

} // verus!
