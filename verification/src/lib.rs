//! A size-class page allocator: the bitmap arithmetic of its pages, the
//! bookkeeping of its page lists, the statistics it keeps, and the decisions
//! it takes on each request, verified.
//!
//! The memory itself is obtained from, and given back to, another allocator
//! by the caller: each decision names the step the caller is to take.
pub mod cal_tools;
pub mod page_list;

pub use page_list::{MyPage, PageListHead};

use vstd::prelude::*;
use crate::cal_tools::find_block;
use crate::page_list::{PageListView, PAGE_DATA_SIZE, PAGE_HEADER_SIZE};

verus! {

/// How many allocation records a `Count` keeps.
pub const MSG_CAPACITY: usize = 4096;

/// The statistics of the allocator: bytes handed out and given back, the
/// highest number of bytes in use, whether the allocator is switched on, a
/// record of the first requests as `(kind, size)` pairs (1 for a request, 2
/// for a release), and a free value for experiments.
pub struct Count {
    allocated: usize,
    deallocated: usize,
    peak: usize,
    flag: bool,
    alloc_msg: [(usize, usize); 4096],
    alloc_msg_point: usize,
    temp: u64,
}

/// What a `Count` holds.
#[verifier::ext_equal]
pub struct CountView {
    pub allocated: usize,
    pub deallocated: usize,
    pub peak: usize,
    pub flag: bool,
    pub alloc_msg: Seq<(usize, usize)>,
    pub alloc_msg_point: usize,
    pub temp: u64,
}

impl View for Count {
    type V = CountView;

    closed spec fn view(&self) -> CountView {
        CountView {
            allocated: self.allocated,
            deallocated: self.deallocated,
            peak: self.peak,
            flag: self.flag,
            alloc_msg: self.alloc_msg@,
            alloc_msg_point: self.alloc_msg_point,
            temp: self.temp,
        }
    }
}

/// The figures that `finish` reports.
#[derive(Clone, Copy, Debug, PartialEq, Eq)]
pub struct Report {
    pub allocated: usize,
    pub deallocated: usize,
    /// The bytes handed out less those given back, each taken as an `i32`.
    pub remaining: i64,
    pub peak: usize,
    pub temp: u64,
}

/// The statistics before anything is counted: all zero, switched off, and a
/// record of `MSG_CAPACITY` empty entries.
pub open spec fn initial_count() -> CountView {
    CountView {
        allocated: 0,
        deallocated: 0,
        peak: 0,
        flag: false,
        alloc_msg: Seq::new(4096, |i: int| (0usize, 0usize)),
        alloc_msg_point: 0,
        temp: 0,
    }
}

/// `c` after a request or release of `size` bytes of kind `flag` has been
/// recorded: the entry goes to the next place of the record, and is dropped
/// once the record is full.
pub open spec fn after_record(c: CountView, size: usize, flag: usize) -> CountView {
    if c.alloc_msg_point >= MSG_CAPACITY {
        c
    } else {
        CountView {
            alloc_msg: c.alloc_msg.update(c.alloc_msg_point as int, (flag, size)),
            alloc_msg_point: (c.alloc_msg_point + 1) as usize,
            ..c
        }
    }
}

/// The bytes in use once `size` more are handed out, as `update_alloc`
/// computes them: both totals taken as `i32` and subtracted.
pub open spec fn in_use_after(c: CountView, size: usize) -> int {
    (((c.allocated + size) as usize) as i32) - (c.deallocated as i32)
}

/// Whether counting `size` more bytes handed out goes through without an
/// overflow: the total fits a `usize`, the bytes in use fit an `i32`, and
/// where they exceed the peak the totals can be subtracted.
pub open spec fn alloc_update_ok(c: CountView, size: usize) -> bool {
    &&& c.allocated + size <= usize::MAX
    &&& i32::MIN <= in_use_after(c, size) <= i32::MAX
    &&& in_use_after(c, size) > c.peak as i32 ==> c.allocated + size >= c.deallocated
}

/// `c` after `size` more bytes were handed out: the total grows by `size`,
/// and the peak becomes the bytes in use where these exceed it.
pub open spec fn after_alloc_update(c: CountView, size: usize) -> CountView {
    CountView {
        allocated: (c.allocated + size) as usize,
        peak: if in_use_after(c, size) > c.peak as i32 {
            (c.allocated + size - c.deallocated) as usize
        } else {
            c.peak
        },
        ..c
    }
}

/// Whether counting `size` more bytes given back fits a `usize`.
pub open spec fn dealloc_update_ok(c: CountView, size: usize) -> bool {
    c.deallocated + size <= usize::MAX
}

/// `c` after `size` more bytes were given back.
pub open spec fn after_dealloc_update(c: CountView, size: usize) -> CountView {
    CountView { deallocated: (c.deallocated + size) as usize, ..c }
}

impl Count {
    /// The statistics before anything is counted (see `initial_count`).
    pub fn new() -> (c: Count)
        ensures
            c@ == initial_count(),
    {
        let c = Count {
            allocated: 0,
            deallocated: 0,
            peak: 0,
            flag: false,
            alloc_msg: [(0, 0); 4096],
            alloc_msg_point: 0,
            temp: 0,
        };
        proof {
            assert(c@.alloc_msg =~= initial_count().alloc_msg);
        }
        c
    }

    /// Sets the totals and the peak to zero and switches counting on.
    pub fn init(&mut self)
        ensures
            final(self)@ == (CountView {
                allocated: 0,
                deallocated: 0,
                peak: 0,
                flag: true,
                ..old(self)@
            }),
    {
        self.allocated = 0;
        self.deallocated = 0;
        self.peak = 0;
        self.set_flag(true);
    }

    /// Switches counting on or off.
    pub fn set_flag(&mut self, status: bool)
        ensures
            final(self)@ == (CountView { flag: status, ..old(self)@ }),
    {
        self.flag = status;
    }

    /// Whether counting is switched on.
    pub fn get_flag(&self) -> (b: bool)
        ensures
            b == self@.flag,
    {
        self.flag
    }

    /// Records a request or release of `size` bytes of kind `flag`, while the
    /// record has room (see `after_record`).
    pub fn record_msg(&mut self, size: usize, flag: usize)
        ensures
            final(self)@ == after_record(old(self)@, size, flag),
    {
        if self.alloc_msg_point >= 4096 {
            return;
        }
        let point = self.alloc_msg_point;
        self.alloc_msg[point] = (flag, size);
        self.alloc_msg_point = point + 1;
        proof {
            assert(final(self)@ =~= after_record(old(self)@, size, flag));
        }
    }

    /// Sets the free value.
    pub fn set_temp(&mut self, i: u64)
        ensures
            final(self)@ == (CountView { temp: i, ..old(self)@ }),
    {
        self.temp = i;
    }

    /// Switches counting off, reports the figures and empties the record.
    pub fn finish(&mut self) -> (r: Report)
        ensures
            r.allocated == old(self)@.allocated,
            r.deallocated == old(self)@.deallocated,
            r.remaining == (old(self)@.allocated as i32) - (old(self)@.deallocated as i32),
            r.peak == old(self)@.peak,
            r.temp == old(self)@.temp,
            final(self)@ == (CountView { flag: false, alloc_msg_point: 0, ..old(self)@ }),
    {
        self.set_flag(false);
        let a = self.allocated as i32;
        let d = self.deallocated as i32;
        let report = Report {
            allocated: self.allocated,
            deallocated: self.deallocated,
            remaining: a as i64 - d as i64,
            peak: self.peak,
            temp: self.temp,
        };
        self.alloc_msg_point = 0;
        report
    }

    /// The number of entries recorded since the record was last emptied.
    pub fn msg_count(&self) -> (r: usize)
        ensures
            r == self@.alloc_msg_point,
    {
        self.alloc_msg_point
    }

    /// Entry `k` of the record, as `(kind, size)`.
    pub fn msg(&self, k: usize) -> (r: (usize, usize))
        requires
            k < MSG_CAPACITY,
        ensures
            r == self@.alloc_msg[k as int],
    {
        self.alloc_msg[k]
    }

    /// The record of a `Count` always has `MSG_CAPACITY` entries.
    pub proof fn lemma_record_len(&self)
        ensures
            self@.alloc_msg.len() == MSG_CAPACITY,
    {
    }
}

/// The allocator's state: its statistics and its five page lists, for blocks
/// of 16, 32, 64 and 128 bytes and for large pages.
pub struct SimpleAllocator {
    count: Count,
    my_pages: Vec<PageListHead>,
}

/// The size class of page list `i` of the allocator.
pub open spec fn head_class(i: int) -> usize {
    if i == 0 {
        16
    } else if i == 1 {
        32
    } else if i == 2 {
        64
    } else if i == 3 {
        128
    } else {
        2049
    }
}

/// What the caller is to do with a request for memory.
#[derive(Clone, Copy, Debug, PartialEq, Eq)]
pub enum AllocStep {
    /// Counting is off: serve the request from the other allocator.
    UseDefault,
    /// The block at this address was taken for the request.
    Placed(usize),
    /// The list of this index has no free block: add a page to it with
    /// `add_page` and ask again.
    NeedPage(usize),
    /// The request is for a large page: obtain one and hand it to
    /// `place_large`.
    NeedLargePage,
    /// The request cannot be served (no list for its size, or a total would
    /// overflow); nothing changed.
    Refused,
}

/// What the caller is to do with memory given back.
#[derive(Clone, Copy, Debug, PartialEq, Eq)]
pub enum DeallocStep {
    /// Counting is off: give the memory back to the other allocator.
    UseDefault,
    /// The block was marked free.
    Released,
    /// The large page that starts at this address left its list: give it back
    /// to the other allocator.
    FreeLargePage(usize),
    /// The memory belongs to no page of its list, or a total would overflow;
    /// nothing changed.
    Refused,
}

/// The bytes that the block served for a request of `size` bytes can hold:
/// the block size of the request's size class, or, for a request served by a
/// large page, the request's own size.
pub open spec fn block_capacity(size: usize) -> int {
    let i = cal_tools::block_index(size);
    if i == 4 {
        size as int
    } else {
        cal_tools::BLOCK_SIZES@[i as int] as int
    }
}

/// The bytes that page `p` of list `i` takes, its header included.
pub open spec fn page_span(i: int, p: MyPage) -> int {
    if i == 4 {
        PAGE_HEADER_SIZE + p.size_class
    } else {
        PAGE_HEADER_SIZE + PAGE_DATA_SIZE
    }
}

/// Whether the `l1` bytes from `s1` and the `l2` bytes from `s2` do not
/// overlap.
pub open spec fn apart(s1: int, l1: int, s2: int, l2: int) -> bool {
    s1 + l1 <= s2 || s2 + l2 <= s1
}

/// What `realloc_step` answers, with counting switched on or off as `flag`
/// says.
pub open spec fn realloc_answer(flag: bool, old_size: usize, new_size: usize) -> ReallocStep {
    if !flag {
        ReallocStep::UseDefault
    } else if cal_tools::block_index(old_size) == cal_tools::block_index(new_size)
        && new_size <= block_capacity(old_size) {
        ReallocStep::Keep
    } else {
        ReallocStep::Move
    }
}

/// The resize rule: with counting on, memory moves whenever the new size
/// falls in another size class; within one small size class (any class but
/// the large pages) it always stays; and a large page stays exactly when the
/// new size is not larger than the old.
pub proof fn lemma_realloc_rule(old_size: usize, new_size: usize)
    ensures
        realloc_answer(false, old_size, new_size) == ReallocStep::UseDefault,
        cal_tools::block_index(old_size) != cal_tools::block_index(new_size) ==> realloc_answer(
            true,
            old_size,
            new_size,
        ) == ReallocStep::Move,
        cal_tools::block_index(old_size) == cal_tools::block_index(new_size)
            && cal_tools::block_index(old_size) != 4 ==> realloc_answer(true, old_size, new_size)
            == ReallocStep::Keep,
        cal_tools::block_index(old_size) == 4 && cal_tools::block_index(new_size) == 4 ==> (
        realloc_answer(true, old_size, new_size) == ReallocStep::Keep) == (new_size <= old_size),
{
}

/// What the caller is to do with a request to resize memory.
#[derive(Clone, Copy, Debug, PartialEq, Eq)]
pub enum ReallocStep {
    /// Counting is off: let the other allocator resize it.
    UseDefault,
    /// The new size is of the same size class and fits the block: keep the
    /// memory as it is.
    Keep,
    /// The new size does not fit the block: give the memory back and request
    /// the new size.
    Move,
}

/// What the caller is to do with a request for zeroed memory.
#[derive(Clone, Copy, Debug, PartialEq, Eq)]
pub enum ZeroedStep {
    /// Counting is off: serve it from the other allocator.
    UseDefault,
    /// The request was counted: serve it from the other allocator.
    Counted,
    /// A total would overflow; nothing changed.
    Refused,
}

impl SimpleAllocator {
    /// Five lists of the right size classes, each a well-formed list.
    pub closed spec fn wf(&self) -> bool {
        &&& self.my_pages@.len() == 5
        &&& forall|i: int| 0 <= i < 5 ==> (#[trigger] self.my_pages@[i])@.size_class == head_class(i)
        &&& forall|i: int| 0 <= i < 4 ==> page_list::small_list_wf(#[trigger] self.my_pages@[i]@)
        &&& page_list::large_list_wf(self.my_pages@[4]@)
        &&& self.pages_apart()
    }

    /// No two pages of the allocator, in the same list or in two lists,
    /// overlap.
    pub open spec fn pages_apart(&self) -> bool {
        forall|i1: int, j1: int, i2: int, j2: int|
            #![trigger self.head(i1).pages[j1], self.head(i2).pages[j2]]
            0 <= i1 < 5 && 0 <= i2 < 5 && 0 <= j1 < self.head(i1).pages.len() && 0 <= j2
                < self.head(i2).pages.len() && (i1 != i2 || j1 != j2) ==> apart(
                self.head(i1).pages[j1].addr as int,
                page_span(i1, self.head(i1).pages[j1]),
                self.head(i2).pages[j2].addr as int,
                page_span(i2, self.head(i2).pages[j2]),
            )
    }

    /// Whether the `len` bytes from `base` overlap no page of the allocator.
    pub open spec fn region_free(&self, base: int, len: int) -> bool {
        forall|i: int, j: int|
            0 <= i < 5 && 0 <= j < self.head(i).pages.len() ==> apart(
                base,
                len,
                (#[trigger] self.head(i).pages[j]).addr as int,
                page_span(i, self.head(i).pages[j]),
            )
    }

    /// Whether the `len` bytes from `base` overlap no page of the allocator
    /// (see `region_free`).
    pub fn place_is_free(&self, base: usize, len: usize) -> (b: bool)
        requires
            self.wf(),
            base + len <= usize::MAX,
        ensures
            b == self.region_free(base as int, len as int),
    {
        let mut i: usize = 0;
        while i < 5
            invariant
                self.wf(),
                base + len <= usize::MAX,
                i <= 5,
                forall|i0: int, j: int|
                    0 <= i0 < i && 0 <= j < self.head(i0).pages.len() ==> apart(
                        base as int,
                        len as int,
                        (#[trigger] self.head(i0).pages[j]).addr as int,
                        page_span(i0, self.head(i0).pages[j]),
                    ),
            decreases 5 - i,
        {
            let h = &self.my_pages[i];
            let n = h.page_count();
            let mut j: usize = 0;
            while j < n
                invariant
                    self.wf(),
                    base + len <= usize::MAX,
                    i < 5,
                    h@ == self.head(i as int),
                    n == self.head(i as int).pages.len(),
                    j <= n,
                    forall|i0: int, j0: int|
                        0 <= i0 < i && 0 <= j0 < self.head(i0).pages.len() ==> apart(
                            base as int,
                            len as int,
                            (#[trigger] self.head(i0).pages[j0]).addr as int,
                            page_span(i0, self.head(i0).pages[j0]),
                        ),
                    forall|j0: int|
                        0 <= j0 < j ==> apart(
                            base as int,
                            len as int,
                            (#[trigger] self.head(i as int).pages[j0]).addr as int,
                            page_span(i as int, self.head(i as int).pages[j0]),
                        ),
                decreases n - j,
            {
                let p = h.page(j);
                proof {
                    assert(p == self.head(i as int).pages[j as int]);
                    if i < 4 {
                        assert(page_list::small_list_wf(self.my_pages@[i as int]@));
                    }
                }
                let span: usize = if i == 4 {
                    PAGE_HEADER_SIZE + p.size_class
                } else {
                    PAGE_HEADER_SIZE + PAGE_DATA_SIZE
                };
                if !(base + len <= p.addr || p.addr + span <= base) {
                    return false;
                }
                j = j + 1;
            }
            i = i + 1;
        }
        true
    }

    /// What a well-formed allocator's state holds: lists of the size classes
    /// of `head_class`, well-formed lists, and a full-length record.
    pub proof fn lemma_wf_facts(&self)
        requires
            self.wf(),
        ensures
            forall|i: int| 0 <= i < 5 ==> (#[trigger] self.head(i)).size_class == head_class(i),
            forall|i: int| 0 <= i < 4 ==> page_list::small_list_wf(#[trigger] self.head(i)),
            page_list::large_list_wf(self.head(4)),
            self.stats().alloc_msg.len() == MSG_CAPACITY,
            self.pages_apart(),
            forall|i: int| 0 <= i < 4 ==> page_list::pages_disjoint(#[trigger] self.head(i).pages),
            page_list::starts_distinct(self.head(4).pages),
    {
        self.count.lemma_record_len();
        assert forall|i: int| 0 <= i < 4 implies page_list::pages_disjoint(#[trigger] self.head(i).pages) by {
            let ps = self.head(i).pages;
            assert forall|j1: int, j2: int|
                0 <= j1 < ps.len() && 0 <= j2 < ps.len() && j1 != j2 implies #[trigger] ps[j1].addr
                    + PAGE_HEADER_SIZE + PAGE_DATA_SIZE <= #[trigger] ps[j2].addr || ps[j2].addr
                    + PAGE_HEADER_SIZE + PAGE_DATA_SIZE <= ps[j1].addr by {
                assert(self.head(i).pages[j1] == ps[j1] && self.head(i).pages[j2] == ps[j2]);
            }
        }
        let ls = self.head(4).pages;
        assert forall|j1: int, j2: int|
            0 <= j1 < ls.len() && 0 <= j2 < ls.len() && j1 != j2 implies #[trigger] ls[j1].addr
                != #[trigger] ls[j2].addr by {
            assert(self.head(4).pages[j1] == ls[j1] && self.head(4).pages[j2] == ls[j2]);
        }
    }

    /// The allocator's statistics.
    pub closed spec fn stats(&self) -> CountView {
        self.count@
    }

    /// Page list `i` of the allocator.
    pub closed spec fn head(&self, i: int) -> PageListView {
        self.my_pages@[i]@
    }

    /// Whether every list of `b` but the one at `skip` is that of `a`.
    pub open spec fn heads_same_except(a: &SimpleAllocator, b: &SimpleAllocator, skip: int) -> bool {
        forall|i: int| 0 <= i < 5 && i != skip ==> #[trigger] b.head(i) == a.head(i)
    }

    /// An allocator with nothing counted, switched off, and empty lists.
    pub fn new() -> (a: SimpleAllocator)
        ensures
            a.wf(),
            a.stats() == initial_count(),
            forall|i: int| 0 <= i < 5 ==> (#[trigger] a.head(i)).pages.len() == 0,
            forall|i: int| 0 <= i < 5 ==> (#[trigger] a.head(i)).size_class == head_class(i),
    {
        let mut my_pages: Vec<PageListHead> = Vec::new();
        my_pages.push(PageListHead::new(16));
        my_pages.push(PageListHead::new(32));
        my_pages.push(PageListHead::new(64));
        my_pages.push(PageListHead::new(128));
        my_pages.push(PageListHead::new(2049));
        SimpleAllocator { count: Count::new(), my_pages }
    }

    /// Sets the totals and the peak to zero and switches counting on.
    pub fn init(&mut self)
        requires
            old(self).wf(),
        ensures
            final(self).wf(),
            final(self).stats() == (CountView {
                allocated: 0,
                deallocated: 0,
                peak: 0,
                flag: true,
                ..old(self).stats()
            }),
            Self::heads_same_except(old(self), final(self), -1),
    {
        self.count.init();
        proof {
            lemma_apart_same_places(old(self), self);
        }
    }

    /// Whether counting is switched on.
    pub fn get_flag(&self) -> (b: bool)
        ensures
            b == self.stats().flag,
    {
        self.count.get_flag()
    }

    /// Switches counting on or off.
    pub fn set_flag(&mut self, status: bool)
        requires
            old(self).wf(),
        ensures
            final(self).wf(),
            final(self).stats() == (CountView { flag: status, ..old(self).stats() }),
            Self::heads_same_except(old(self), final(self), -1),
    {
        self.count.set_flag(status);
        proof {
            lemma_apart_same_places(old(self), self);
        }
    }

    /// Records a request or release of `size` bytes of kind `flag`.
    pub fn record_msg(&mut self, size: usize, flag: usize)
        requires
            old(self).wf(),
        ensures
            final(self).wf(),
            final(self).stats() == after_record(old(self).stats(), size, flag),
            Self::heads_same_except(old(self), final(self), -1),
    {
        self.count.record_msg(size, flag);
        proof {
            lemma_apart_same_places(old(self), self);
        }
    }

    /// Whether `update_alloc(size)` goes through (see `alloc_update_ok`).
    pub fn can_update_alloc(&self, size: usize) -> (b: bool)
        ensures
            b == alloc_update_ok(self.stats(), size),
    {
        match self.count.allocated.checked_add(size) {
            None => false,
            Some(total) => {
                let a = total as i32;
                let d = self.count.deallocated as i32;
                let in_use: i64 = a as i64 - d as i64;
                if in_use < i32::MIN as i64 || in_use > i32::MAX as i64 {
                    false
                } else if in_use > self.count.peak as i32 as i64 {
                    total >= self.count.deallocated
                } else {
                    true
                }
            },
        }
    }

    /// Whether `update_dealloc(size)` goes through (see `dealloc_update_ok`).
    pub fn can_update_dealloc(&self, size: usize) -> (b: bool)
        ensures
            b == dealloc_update_ok(self.stats(), size),
            b == (self.stats().deallocated + size <= usize::MAX),
    {
        self.count.deallocated.checked_add(size).is_some()
    }

    /// Counts `size` more bytes handed out and raises the peak where the
    /// bytes in use exceed it (see `after_alloc_update`).
    pub fn update_alloc(&mut self, size: usize)
        requires
            old(self).wf(),
            alloc_update_ok(old(self).stats(), size),
        ensures
            final(self).wf(),
            final(self).stats() == after_alloc_update(old(self).stats(), size),
            Self::heads_same_except(old(self), final(self), -1),
    {
        self.count.allocated = self.count.allocated + size;
        if (self.count.allocated as i32 - self.count.deallocated as i32) > self.count.peak as i32 {
            self.count.peak = self.count.allocated - self.count.deallocated;
        }
        proof {
            lemma_apart_same_places(old(self), self);
        }
    }

    /// Counts `size` more bytes given back.
    pub fn update_dealloc(&mut self, size: usize)
        requires
            old(self).wf(),
            dealloc_update_ok(old(self).stats(), size),
        ensures
            final(self).wf(),
            final(self).stats() == after_dealloc_update(old(self).stats(), size),
            Self::heads_same_except(old(self), final(self), -1),
    {
        self.count.deallocated = self.count.deallocated + size;
        proof {
            lemma_apart_same_places(old(self), self);
        }
    }

    /// Switches counting off, reports the figures and empties the record.
    pub fn finish(&mut self) -> (r: Report)
        requires
            old(self).wf(),
        ensures
            final(self).wf(),
            r.allocated == old(self).stats().allocated,
            r.deallocated == old(self).stats().deallocated,
            r.remaining == (old(self).stats().allocated as i32) - (old(self).stats().deallocated as i32),
            r.peak == old(self).stats().peak,
            r.temp == old(self).stats().temp,
            final(self).stats() == (CountView { flag: false, alloc_msg_point: 0, ..old(self).stats() }),
            Self::heads_same_except(old(self), final(self), -1),
    {
        let r = self.count.finish();
        proof {
            lemma_apart_same_places(old(self), self);
        }
        r
    }

    /// What `alloc_step` does (see its description).
    pub open spec fn alloc_stepped(before: &SimpleAllocator, after: &SimpleAllocator, size: usize, r: AllocStep) -> bool {
        &&& ({
            let i = cal_tools::block_index(size) as int;
            let old_h = before.head(i);
            if !before.stats().flag {
                r is UseDefault
            } else if i == 4 {
                r is NeedLargePage
            } else if i >= 5 || !alloc_update_ok(before.stats(), size) {
                r is Refused
            } else if page_list::all_pages_full(old_h.pages) {
                r == AllocStep::NeedPage(i as usize)
            } else {
                r is Placed
            }
        })
        &&& match r {
            AllocStep::Placed(a) => {
                let i = cal_tools::block_index(size) as int;
                &&& page_list::took_slot(before.head(i), after.head(i), Some(a))
                &&& after.stats() == after_record(
                    after_alloc_update(before.stats(), size),
                    size,
                    1,
                )
                &&& Self::heads_same_except(before, after, i)
            },
            _ => {
                &&& after.stats() == before.stats()
                &&& Self::heads_same_except(before, after, -1)
            },
        }
    }

    /// Decides a request for `size` bytes. Counting off: `UseDefault`. A
    /// request larger than every block size: `NeedLargePage`. A size with no
    /// list of its own, or a total that would overflow: `Refused`. Otherwise
    /// the first free block of the list of the size's class is taken
    /// (`took_slot`), the request counted and recorded, and its address is the
    /// result; where that list has no free block, `NeedPage` with its index.
    pub fn alloc_step(&mut self, size: usize) -> (r: AllocStep)
        requires
            old(self).wf(),
        ensures
            final(self).wf(),
            Self::alloc_stepped(old(self), final(self), size, r),
    {
        if !self.get_flag() {
            return AllocStep::UseDefault;
        }
        let i = find_block(size);
        if i == 4 {
            return AllocStep::NeedLargePage;
        }
        if i >= 5 {
            return AllocStep::Refused;
        }
        if !self.can_update_alloc(size) {
            return AllocStep::Refused;
        }
        let ghost before = *self;
        let mut h = self.my_pages.remove(i);
        let found = h.take_slot();
        self.my_pages.insert(i, h);
        proof {
            assert(self.my_pages@ =~= before.my_pages@.update(i as int, h));
            assert(before.head(i as int) == before.my_pages@[i as int]@);
            page_list::lemma_first_open_page(before.head(i as int).pages);
            if found is None {
                assert(h@ == before.my_pages@[i as int]@);
            }
            page_list::lemma_took_slot_keeps_wf(before.head(i as int), self.head(i as int), found);
            lemma_apart_same_places(&before, self);
        }
        match found {
            Some(a) => {
                self.update_alloc(size);
                self.record_msg(size, 1);
                AllocStep::Placed(a)
            },
            None => AllocStep::NeedPage(i),
        }
    }

    /// What `add_page` does: list `i` gets, after its pages, a page of its
    /// size class that starts at `base` with no block taken; nothing else
    /// changes.
    pub open spec fn page_added(before: &SimpleAllocator, after: &SimpleAllocator, i: int, base: usize) -> bool {
        &&& after.stats() == before.stats()
        &&& after.head(i).size_class == before.head(i).size_class
        &&& after.head(i).pages.drop_last() == before.head(i).pages
        &&& after.head(i).pages.len() == before.head(i).pages.len() + 1
        &&& page_list::fresh_page(after.head(i).pages.last(), base, before.head(i).size_class)
        &&& Self::heads_same_except(before, after, i)
    }

    /// Adds to list `i`, of a small size class, a page that starts at `base`.
    pub fn add_page(&mut self, i: usize, base: usize)
        requires
            old(self).wf(),
            i < 4,
            base + PAGE_HEADER_SIZE + PAGE_DATA_SIZE <= usize::MAX,
            old(self).region_free(base as int, PAGE_HEADER_SIZE + PAGE_DATA_SIZE),
        ensures
            final(self).wf(),
            Self::page_added(old(self), final(self), i as int, base),
    {
        let ghost before = *self;
        let mut h = self.my_pages.remove(i);
        h.reserve_page(base);
        self.my_pages.insert(i, h);
        proof {
            assert(self.my_pages@ =~= before.my_pages@.update(i as int, h));
            let hv = h@;
            assert forall|j: int| 0 <= j < hv.pages.len() implies (#[trigger] hv.pages[j]).size_class == hv.size_class
                && hv.pages[j].addr + PAGE_HEADER_SIZE + PAGE_DATA_SIZE <= usize::MAX by {
                if j < hv.pages.len() - 1 {
                    assert(hv.pages[j] == hv.pages.drop_last()[j]);
                }
            }
            lemma_apart_added(&before, self, i as int, base);
        }
    }

    /// What `place_large` does (see its description).
    pub open spec fn large_placed(
        before: &SimpleAllocator,
        after: &SimpleAllocator,
        base: usize,
        size: usize,
        r: Option<usize>,
    ) -> bool {
        if alloc_update_ok(before.stats(), size) {
            &&& r == Some((base + PAGE_HEADER_SIZE) as usize)
            &&& after.stats() == after_record(after_alloc_update(before.stats(), size), size, 1)
            &&& after.head(4).size_class == before.head(4).size_class
            &&& after.head(4).pages.drop_last() == before.head(4).pages
            &&& after.head(4).pages.len() == before.head(4).pages.len() + 1
            &&& page_list::fresh_page(after.head(4).pages.last(), base, size)
            &&& Self::heads_same_except(before, after, 4)
        } else {
            &&& r is None
            &&& after.stats() == before.stats()
            &&& Self::heads_same_except(before, after, -1)
        }
    }

    /// Serves a request for `size` bytes with the large page that starts at
    /// `base`: the page joins the list of large pages, the request is counted
    /// and recorded, and the address of the page's data is the result. `None`,
    /// with nothing changed, where a total would overflow.
    pub fn place_large(&mut self, base: usize, size: usize) -> (r: Option<usize>)
        requires
            old(self).wf(),
            base + PAGE_HEADER_SIZE + size <= usize::MAX,
            old(self).region_free(base as int, PAGE_HEADER_SIZE + size),
        ensures
            final(self).wf(),
            Self::large_placed(old(self), final(self), base, size, r),
    {
        if !self.can_update_alloc(size) {
            return None;
        }
        let ghost before = *self;
        let mut h = self.my_pages.remove(4);
        h.reserve_large_page(base, size);
        self.my_pages.insert(4, h);
        proof {
            assert(self.my_pages@ =~= before.my_pages@.update(4, h));
            let hv = h@;
            assert forall|j: int| 0 <= j < hv.pages.len() implies (#[trigger] hv.pages[j]).addr
                + PAGE_HEADER_SIZE + hv.pages[j].size_class <= usize::MAX by {
                if j < hv.pages.len() - 1 {
                    assert(hv.pages[j] == hv.pages.drop_last()[j]);
                }
            }
            lemma_apart_added(&before, self, 4, base);
        }
        self.update_alloc(size);
        self.record_msg(size, 1);
        Some(base + PAGE_HEADER_SIZE)
    }

    /// What `dealloc_step` does (see its description).
    pub open spec fn dealloc_stepped(before: &SimpleAllocator, after: &SimpleAllocator, addr: usize, size: usize, r: DeallocStep) -> bool {
        &&& ({
            let i = cal_tools::block_index(size) as int;
            if !before.stats().flag {
                r is UseDefault
            } else if i >= 5 || !dealloc_update_ok(before.stats(), size) {
                r is Refused
            } else if i == 4 {
                if page_list::first_page_at(before.head(4).pages, addr) < before.head(4).pages.len() {
                    r is FreeLargePage
                } else {
                    r is Refused
                }
            } else if page_list::release_target(before.head(i), addr) is Some {
                r is Released
            } else {
                r is Refused
            }
        })
        &&& match r {
            DeallocStep::FreeLargePage(base) => {
                &&& page_list::removed_large(before.head(4), after.head(4), addr, Some(base))
                &&& after.stats() == after_record(
                    after_dealloc_update(before.stats(), size),
                    size,
                    2,
                )
                &&& Self::heads_same_except(before, after, 4)
            },
            DeallocStep::Released => {
                let i = cal_tools::block_index(size) as int;
                &&& page_list::released(before.head(i), after.head(i), addr, true)
                &&& after.stats() == after_record(
                    after_dealloc_update(before.stats(), size),
                    size,
                    2,
                )
                &&& Self::heads_same_except(before, after, i)
            },
            _ => {
                &&& after.stats() == before.stats()
                &&& Self::heads_same_except(before, after, -1)
            },
        }
    }

    /// Decides memory at `addr` of `size` bytes given back. Counting off:
    /// `UseDefault`. A size with no list of its own, or a total that would
    /// overflow: `Refused`. A large size: the large page whose data starts at
    /// `addr` leaves its list (`removed_large`), the release is counted and
    /// recorded, and the result names the page to give back; `Refused` where
    /// there is no such page. Otherwise the block at `addr` is marked free in
    /// the list of the size's class (`released`) and the release counted and
    /// recorded; `Refused` where there is no such block.
    pub fn dealloc_step(&mut self, addr: usize, size: usize) -> (r: DeallocStep)
        requires
            old(self).wf(),
        ensures
            final(self).wf(),
            Self::dealloc_stepped(old(self), final(self), addr, size, r),
    {
        if !self.get_flag() {
            return DeallocStep::UseDefault;
        }
        let i = find_block(size);
        if i >= 5 {
            return DeallocStep::Refused;
        }
        if !self.can_update_dealloc(size) {
            return DeallocStep::Refused;
        }
        let ghost before = *self;
        let mut h = self.my_pages.remove(i);
        if i == 4 {
            let found = h.remove_large(addr);
            self.my_pages.insert(i, h);
            proof {
                assert(self.my_pages@ =~= before.my_pages@.update(i as int, h));
                assert(before.head(i as int) == before.my_pages@[i as int]@);
                page_list::lemma_first_page_at_bounds(before.head(4).pages, addr);
                if found is Some {
                    lemma_apart_removed(&before, self, page_list::first_page_at(before.head(4).pages, addr));
                } else {
                    lemma_apart_same_places(&before, self);
                }
            }
            match found {
                Some(base) => {
                    self.update_dealloc(size);
                    self.record_msg(size, 2);
                    DeallocStep::FreeLargePage(base)
                },
                None => DeallocStep::Refused,
            }
        } else {
            let ok = h.release_slot(addr);
            self.my_pages.insert(i, h);
            proof {
                assert(self.my_pages@ =~= before.my_pages@.update(i as int, h));
                assert(before.head(i as int) == before.my_pages@[i as int]@);
                page_list::lemma_released_keeps_places(before.head(i as int), self.head(i as int), addr, ok);
                lemma_apart_same_places(&before, self);
            }
            if ok {
                self.update_dealloc(size);
                self.record_msg(size, 2);
                DeallocStep::Released
            } else {
                DeallocStep::Refused
            }
        }
    }

    /// Decides a request to resize memory of `old_size` bytes to `new_size`
    /// bytes: counting off, `UseDefault`; a new size of the same size class
    /// as the old one that fits its block (see `block_capacity`), `Keep`;
    /// otherwise `Move`. A block kept for a size of another class could not
    /// be given back, since a release looks for it in the list of its size.
    pub fn realloc_step(&self, old_size: usize, new_size: usize) -> (r: ReallocStep)
        ensures
            r == realloc_answer(self.stats().flag, old_size, new_size),
    {
        if !self.get_flag() {
            return ReallocStep::UseDefault;
        }
        let i = find_block(old_size);
        if i != find_block(new_size) {
            return ReallocStep::Move;
        }
        let capacity = if i == 4 {
            old_size
        } else {
            cal_tools::BLOCK_SIZES[i]
        };
        if new_size <= capacity {
            return ReallocStep::Keep;
        }
        ReallocStep::Move
    }

    /// Decides a request for `size` zeroed bytes: counting off, `UseDefault`;
    /// a total that would overflow, `Refused`; otherwise the request is
    /// counted and recorded, `Counted`.
    pub fn alloc_zeroed_step(&mut self, size: usize) -> (r: ZeroedStep)
        requires
            old(self).wf(),
        ensures
            final(self).wf(),
            Self::heads_same_except(old(self), final(self), -1),
            if !old(self).stats().flag {
                r is UseDefault && final(self).stats() == old(self).stats()
            } else if !alloc_update_ok(old(self).stats(), size) {
                r is Refused && final(self).stats() == old(self).stats()
            } else {
                &&& r is Counted
                &&& final(self).stats() == after_record(after_alloc_update(old(self).stats(), size), size, 1)
            },
    {
        if !self.get_flag() {
            return ZeroedStep::UseDefault;
        }
        if !self.can_update_alloc(size) {
            return ZeroedStep::Refused;
        }
        self.update_alloc(size);
        self.record_msg(size, 1);
        ZeroedStep::Counted
    }

    /// The allocator's statistics.
    pub fn count(&self) -> (c: &Count)
        ensures
            c@ == self.stats(),
    {
        &self.count
    }

    /// Page list `i` of the allocator.
    pub fn page_list(&self, i: usize) -> (h: &PageListHead)
        requires
            self.wf(),
            i < 5,
        ensures
            h@ == self.head(i as int),
    {
        &self.my_pages[i]
    }
}

/// While the totals and the peak fit an `i32`, `update_alloc` keeps the peak
/// at the highest number of bytes in use: the larger of the old peak and the
/// bytes in use after the request.
pub proof fn lemma_peak_is_highest_in_use(c: CountView, size: usize)
    requires
        c.allocated + size <= i32::MAX,
        c.deallocated <= i32::MAX,
        c.peak <= i32::MAX,
    ensures
        alloc_update_ok(c, size),
        after_alloc_update(c, size).peak == (if c.allocated + size - c.deallocated > c.peak {
            c.allocated + size - c.deallocated
        } else {
            c.peak as int
        }),
{
    let a = (c.allocated + size) as usize;
    assert(a as i32 == a) by (bit_vector)
        requires
            a <= 0x7fff_ffffusize,
    ;
    let d = c.deallocated;
    let pk = c.peak;
    assert(d as i32 == d) by (bit_vector)
        requires
            d <= 0x7fff_ffffusize,
    ;
    assert(pk as i32 == pk) by (bit_vector)
        requires
            pk <= 0x7fff_ffffusize,
    ;
}

/// Giving back memory just handed out for a small size class undoes the
/// request on the page lists: the release succeeds, every list is as before,
/// and both totals grew by the size. It needs the total given back to fit a
/// `usize`.
pub proof fn lemma_dealloc_undoes_alloc(
    a0: &SimpleAllocator,
    a1: &SimpleAllocator,
    size: usize,
    addr: usize,
    a2: &SimpleAllocator,
    r: DeallocStep,
)
    requires
        a0.wf(),
        SimpleAllocator::alloc_stepped(a0, a1, size, AllocStep::Placed(addr)),
        a1.stats().deallocated + size <= usize::MAX,
        SimpleAllocator::dealloc_stepped(a1, a2, addr, size, r),
    ensures
        r is Released,
        forall|i: int| 0 <= i < 5 ==> #[trigger] a2.head(i) == a0.head(i),
        a2.stats() == after_record(
            after_dealloc_update(after_record(after_alloc_update(a0.stats(), size), size, 1), size),
            size,
            2,
        ),
{
    let i = cal_tools::block_index(size) as int;
    assert(0 <= i < 4);
    let h0 = a0.head(i);
    let h1 = a1.head(i);
    a0.lemma_wf_facts();
    assert(page_list::small_list_wf(h0));
    assert(page_list::pages_disjoint(h0.pages));
    page_list::lemma_taken_block_is_release_target(h0, h1, addr);
    assert(page_list::release_target(h1, addr) is Some);
    assert(r is Released);
    page_list::lemma_release_undoes_take(h0, h1, addr, a2.head(i), true);
}

/// A request that found its list full is placed once the list has been given
/// a page: after `NeedPage` and `add_page`, the same request is `Placed`.
pub proof fn lemma_added_page_serves_request(
    a0: &SimpleAllocator,
    a1: &SimpleAllocator,
    size: usize,
    i: usize,
    base: usize,
    a2: &SimpleAllocator,
    a3: &SimpleAllocator,
    r: AllocStep,
)
    requires
        a0.wf(),
        SimpleAllocator::alloc_stepped(a0, a1, size, AllocStep::NeedPage(i)),
        SimpleAllocator::page_added(a1, a2, i as int, base),
        SimpleAllocator::alloc_stepped(a2, a3, size, r),
    ensures
        r is Placed,
{
    let h1 = a1.head(i as int);
    let h2 = a2.head(i as int);
    assert(i < 4);
    assert(page_list::small_list_wf(h1));
    let last = h2.pages.len() - 1;
    cal_tools::lemma_empty_free_list(h2.pages[last].free_list@, h2.pages[last].size_class);
    assert(page_list::page_is_open(h2.pages[last]));
    assert(!page_list::all_pages_full(h2.pages));
}

/// The peak is at least the bytes in use, all three figures read as `i32`,
/// as `update_alloc` compares them.
pub open spec fn peak_covers_use(c: CountView) -> bool {
    (c.peak as i32) >= (c.allocated as i32) - (c.deallocated as i32)
}

proof fn lemma_i32_of_difference(x: usize, y: usize)
    requires
        x >= y,
        i32::MIN <= (x as i32) - (y as i32) <= i32::MAX,
    ensures
        ((x - y) as usize) as i32 == (x as i32) - (y as i32),
{
    assert(((x - y) as usize) as i32 == (x as i32) - (y as i32)) by (bit_vector)
        requires
            x >= y,
            -0x8000_0000 <= (x as i32) - (y as i32) <= 0x7fff_ffff,
    ;
}

/// Every request that `update_alloc` accepts leaves the peak at least the
/// bytes in use, raises the total handed out by the request, and does not
/// lower the peak (all read as `i32`).
pub proof fn lemma_alloc_keeps_peak(c: CountView, size: usize)
    requires
        alloc_update_ok(c, size),
    ensures
        peak_covers_use(after_alloc_update(c, size)),
        after_alloc_update(c, size).peak as i32 >= c.peak as i32,
        after_alloc_update(c, size).allocated == c.allocated + size,
        after_alloc_update(c, size).deallocated == c.deallocated,
{
    let a = (c.allocated + size) as usize;
    if in_use_after(c, size) > c.peak as i32 {
        lemma_i32_of_difference(a, c.deallocated);
    }
}

/// A release that `update_dealloc` accepts keeps the peak at least the bytes
/// in use, where the total given back, read as an `i32`, does not go down;
/// the peak and the total handed out stay as they are. It does not hold where
/// that total wraps: from 10 bytes handed out, 10 of peak and none given
/// back, a release of 2^31 bytes leaves 10 - (-2^31) bytes in use.
pub proof fn lemma_dealloc_keeps_peak(c: CountView, size: usize)
    requires
        c.deallocated + size <= usize::MAX,
        peak_covers_use(c),
        ((c.deallocated + size) as usize) as i32 >= c.deallocated as i32,
    ensures
        peak_covers_use(after_dealloc_update(c, size)),
        after_dealloc_update(c, size).peak == c.peak,
        after_dealloc_update(c, size).allocated == c.allocated,
{
}

/// Giving back a large page just placed undoes the request on the page lists:
/// the page leaves its list, whose other pages keep their order, the caller is
/// told to give back that page, and both totals grew by the size. It needs
/// the total given back to fit a `usize`.
pub proof fn lemma_dealloc_undoes_place_large(
    a0: &SimpleAllocator,
    base: usize,
    size: usize,
    a1: &SimpleAllocator,
    a2: &SimpleAllocator,
    r: DeallocStep,
)
    requires
        a0.wf(),
        a0.stats().flag,
        cal_tools::block_index(size) == 4,
        alloc_update_ok(a0.stats(), size),
        base + PAGE_HEADER_SIZE + size <= usize::MAX,
        SimpleAllocator::large_placed(a0, a1, base, size, Some((base + PAGE_HEADER_SIZE) as usize)),
        a1.wf(),
        a1.stats().deallocated + size <= usize::MAX,
        SimpleAllocator::dealloc_stepped(a1, a2, (base + PAGE_HEADER_SIZE) as usize, size, r),
    ensures
        r == DeallocStep::FreeLargePage(base),
        forall|i: int| 0 <= i < 5 ==> #[trigger] a2.head(i) == a0.head(i),
        a2.stats() == after_record(
            after_dealloc_update(after_record(after_alloc_update(a0.stats(), size), size, 1), size),
            size,
            2,
        ),
{
    let h0 = a0.head(4);
    let h1 = a1.head(4);
    let k = h0.pages.len() as int;
    assert(h1.pages[k] == h1.pages.last());
    a1.lemma_wf_facts();
    assert forall|j: int| 0 <= j < h1.pages.len() && j != k implies (#[trigger] h1.pages[j]).addr != h1.pages[k].addr by {
        assert(h1.pages[j].addr != h1.pages[k].addr);
    }
    page_list::lemma_first_page_at(h1.pages, k, (base + PAGE_HEADER_SIZE) as usize);
    assert(h1.pages.remove(k) =~= h0.pages);
}

/// Giving back a large page frees exactly that page, wherever it stands in
/// its list: for page `k` of the list of large pages, a release of the
/// address of its data names that page to give back, takes it out of the
/// list and keeps the others in order. It needs the total given back to fit a
/// `usize`.
pub proof fn lemma_large_release_frees_its_page(
    a1: &SimpleAllocator,
    k: int,
    size: usize,
    a2: &SimpleAllocator,
    r: DeallocStep,
)
    requires
        a1.wf(),
        a1.stats().flag,
        cal_tools::block_index(size) == 4,
        a1.stats().deallocated + size <= usize::MAX,
        0 <= k < a1.head(4).pages.len(),
        SimpleAllocator::dealloc_stepped(
            a1,
            a2,
            (a1.head(4).pages[k].addr + PAGE_HEADER_SIZE) as usize,
            size,
            r,
        ),
    ensures
        r == DeallocStep::FreeLargePage(a1.head(4).pages[k].addr),
        a2.head(4).pages == a1.head(4).pages.remove(k),
        forall|i: int| 0 <= i < 4 ==> #[trigger] a2.head(i) == a1.head(i),
        a2.stats() == after_record(after_dealloc_update(a1.stats(), size), size, 2),
{
    a1.lemma_wf_facts();
    let h1 = a1.head(4);
    assert(h1.pages[k].addr + PAGE_HEADER_SIZE + h1.pages[k].size_class <= usize::MAX);
    assert forall|j: int| 0 <= j < h1.pages.len() && j != k implies (#[trigger] h1.pages[j]).addr != h1.pages[k].addr by {
    }
    page_list::lemma_first_page_at(h1.pages, k, (h1.pages[k].addr + PAGE_HEADER_SIZE) as usize);
}

/// A request served after its list was given a page is undone by giving it
/// back: after `NeedPage`, `add_page`, `Placed` and the release of that
/// address, every other list is as before the request, and the list of the
/// request holds its old pages followed by the new page with no block taken.
/// It needs the total given back to fit a `usize`.
pub proof fn lemma_dealloc_undoes_alloc_after_new_page(
    a0: &SimpleAllocator,
    a1: &SimpleAllocator,
    i: usize,
    base: usize,
    a2: &SimpleAllocator,
    a3: &SimpleAllocator,
    size: usize,
    addr: usize,
    a4: &SimpleAllocator,
    r: DeallocStep,
)
    requires
        a0.wf(),
        SimpleAllocator::alloc_stepped(a0, a1, size, AllocStep::NeedPage(i)),
        SimpleAllocator::page_added(a1, a2, i as int, base),
        a2.wf(),
        SimpleAllocator::alloc_stepped(a2, a3, size, AllocStep::Placed(addr)),
        a3.stats().deallocated + size <= usize::MAX,
        SimpleAllocator::dealloc_stepped(a3, a4, addr, size, r),
    ensures
        r is Released,
        forall|j: int| 0 <= j < 5 && j != i ==> #[trigger] a4.head(j) == a0.head(j),
        a4.head(i as int).size_class == a0.head(i as int).size_class,
        a4.head(i as int).pages.drop_last() == a0.head(i as int).pages,
        a4.head(i as int).pages.len() == a0.head(i as int).pages.len() + 1,
        page_list::fresh_page(a4.head(i as int).pages.last(), base, a0.head(i as int).size_class),
{
    lemma_dealloc_undoes_alloc(a2, a3, size, addr, a4, r);
}

/// The address of block `s` of page `j` of the small list `i`: the page's data
/// start plus the slot times the list's block size.
pub open spec fn block_addr(a: &SimpleAllocator, i: int, j: int, s: int) -> int {
    a.head(i).pages[j].addr + PAGE_HEADER_SIZE + s * head_class(i)
}

/// Whether `(i, j, s)` names a block of the allocator: slot `s` of page `j`
/// of the small list `i`.
pub open spec fn is_block(a: &SimpleAllocator, i: int, j: int, s: int) -> bool {
    &&& 0 <= i < 4
    &&& 0 <= j < a.head(i).pages.len()
    &&& 0 <= s < cal_tools::slot_count(head_class(i))
}

/// Whether block `(i, j, s)` is taken: its bit is set in the free list of its
/// page.
pub open spec fn block_taken(a: &SimpleAllocator, i: int, j: int, s: int) -> bool {
    is_block(a, i, j, s) && cal_tools::slot_used(a.head(i).pages[j].free_list@, s)
}

/// The blocks of the allocator that are taken, as `(list, page, slot)`.
pub open spec fn taken_blocks(a: &SimpleAllocator) -> Set<(int, int, int)> {
    Set::new(|t: (int, int, int)| block_taken(a, t.0, t.1, t.2))
}

/// The block that `alloc_step` takes for a request of `size` bytes: the first
/// free slot of the first page with one in the list of the request's class.
pub open spec fn placed_block(a: &SimpleAllocator, size: usize) -> (int, int, int) {
    let i = cal_tools::block_index(size) as int;
    let k = page_list::first_open_page(a.head(i).pages);
    let p = a.head(i).pages[k];
    (i, k, cal_tools::first_free(p.free_list@, cal_tools::slot_count(p.size_class)))
}

proof fn lemma_bit_added(w: u64, b: u64, b2: u64)
    requires
        b < 64,
        b2 < 64,
        !((w >> b) & 1u64 == 1u64),
    ensures
        w + (1u64 << b) <= u64::MAX,
        b2 == b ==> (((w + (1u64 << b)) as u64 >> b2) & 1u64 == 1u64),
        b2 != b ==> (((w + (1u64 << b)) as u64 >> b2) & 1u64 == 1u64) == ((w >> b2) & 1u64 == 1u64),
{
    assert(w + (1u64 << b) <= 0xffff_ffff_ffff_ffffu64) by (bit_vector)
        requires
            b < 64,
            !((w >> b) & 1u64 == 1u64),
    ;
    let w2 = (w + (1u64 << b)) as u64;
    assert(b2 == b ==> ((w2 >> b2) & 1u64 == 1u64)) by (bit_vector)
        requires
            b < 64,
            w2 == w + (1u64 << b),
            !((w >> b) & 1u64 == 1u64),
    ;
    assert(b2 != b ==> (((w2 >> b2) & 1u64 == 1u64) == ((w >> b2) & 1u64 == 1u64))) by (bit_vector)
        requires
            b < 64,
            b2 < 64,
            w2 == w + (1u64 << b),
            !((w >> b) & 1u64 == 1u64),
    ;
}

proof fn lemma_bit_removed(w: u64, b: u64, b2: u64)
    requires
        b < 64,
        b2 < 64,
        (w >> b) & 1u64 == 1u64,
    ensures
        w >= (1u64 << b),
        b2 == b ==> !((((w - (1u64 << b)) as u64) >> b2) & 1u64 == 1u64),
        b2 != b ==> ((((w - (1u64 << b)) as u64) >> b2) & 1u64 == 1u64) == ((w >> b2) & 1u64 == 1u64),
{
    assert(w >= (1u64 << b)) by (bit_vector)
        requires
            b < 64,
            (w >> b) & 1u64 == 1u64,
    ;
    let w2 = (w - (1u64 << b)) as u64;
    assert(b2 == b ==> !((w2 >> b2) & 1u64 == 1u64)) by (bit_vector)
        requires
            b < 64,
            w2 == w - (1u64 << b),
            (w >> b) & 1u64 == 1u64,
    ;
    assert(b2 != b ==> (((w2 >> b2) & 1u64 == 1u64) == ((w >> b2) & 1u64 == 1u64))) by (bit_vector)
        requires
            b < 64,
            b2 < 64,
            w2 == w - (1u64 << b),
            (w >> b) & 1u64 == 1u64,
    ;
}

/// Two different blocks of a well-formed allocator do not overlap.
pub proof fn lemma_blocks_apart(
    a: &SimpleAllocator,
    i1: int,
    j1: int,
    s1: int,
    i2: int,
    j2: int,
    s2: int,
)
    requires
        a.wf(),
        is_block(a, i1, j1, s1),
        is_block(a, i2, j2, s2),
        (i1, j1, s1) != (i2, j2, s2),
    ensures
        apart(block_addr(a, i1, j1, s1), head_class(i1) as int, block_addr(a, i2, j2, s2), head_class(i2) as int),
{
    a.lemma_wf_facts();
    let c1 = head_class(i1) as int;
    let c2 = head_class(i2) as int;
    assert(cal_tools::slot_count(head_class(i1)) * c1 == 4096);
    assert(cal_tools::slot_count(head_class(i2)) * c2 == 4096);
    assert((s1 + 1) * c1 <= 4096) by (nonlinear_arith)
        requires
            s1 + 1 <= cal_tools::slot_count(head_class(i1)),
            cal_tools::slot_count(head_class(i1)) * c1 == 4096,
            c1 > 0,
    ;
    assert((s2 + 1) * c2 <= 4096) by (nonlinear_arith)
        requires
            s2 + 1 <= cal_tools::slot_count(head_class(i2)),
            cal_tools::slot_count(head_class(i2)) * c2 == 4096,
            c2 > 0,
    ;
    assert(s1 * c1 >= 0 && s2 * c2 >= 0) by (nonlinear_arith)
        requires
            s1 >= 0,
            s2 >= 0,
            c1 > 0,
            c2 > 0,
    ;
    if i1 != i2 || j1 != j2 {
        let p1 = a.head(i1).pages[j1];
        let p2 = a.head(i2).pages[j2];
        assert(apart(p1.addr as int, page_span(i1, p1), p2.addr as int, page_span(i2, p2)));
    } else {
        if s1 < s2 {
            assert(s1 * c1 + c1 <= s2 * c1) by (nonlinear_arith)
                requires
                    s1 < s2,
                    c1 > 0,
            ;
        } else {
            assert(s2 * c1 + c1 <= s1 * c1) by (nonlinear_arith)
                requires
                    s2 < s1,
                    c1 > 0,
            ;
        }
    }
}

/// What a request placed by `alloc_step` does to the blocks: the block it
/// takes (`placed_block`) was free, lies at the address handed out, holds the
/// request, and is taken afterwards; every other block keeps its place and
/// whether it is taken; and the new block overlaps no block taken before. So
/// a block handed out never overlaps one handed out earlier and not given
/// back.
pub proof fn lemma_placed_block(a0: &SimpleAllocator, a1: &SimpleAllocator, size: usize, addr: usize)
    requires
        a0.wf(),
        SimpleAllocator::alloc_stepped(a0, a1, size, AllocStep::Placed(addr)),
    ensures
        ({
            let (i, k, s) = placed_block(a0, size);
            &&& is_block(a0, i, k, s)
            &&& addr == block_addr(a0, i, k, s)
            &&& size <= head_class(i)
            &&& !block_taken(a0, i, k, s)
            &&& block_taken(a1, i, k, s)
            &&& forall|i2: int, j2: int, s2: int|
                #![trigger block_taken(a1, i2, j2, s2)]
                (i2, j2, s2) != (i, k, s) ==> block_taken(a1, i2, j2, s2) == block_taken(
                    a0,
                    i2,
                    j2,
                    s2,
                )
            &&& forall|i2: int, j2: int, s2: int|
                #![trigger block_taken(a0, i2, j2, s2)]
                block_taken(a0, i2, j2, s2) ==> apart(
                    addr as int,
                    head_class(i) as int,
                    block_addr(a0, i2, j2, s2),
                    head_class(i2) as int,
                )
        }),
        forall|i2: int, j2: int, s2: int|
            #[trigger] is_block(a1, i2, j2, s2) == is_block(a0, i2, j2, s2),
        forall|i2: int, j2: int, s2: int|
            #[trigger] is_block(a0, i2, j2, s2) ==> block_addr(a1, i2, j2, s2) == block_addr(a0, i2, j2, s2),
        !taken_blocks(a0).contains(placed_block(a0, size)),
        taken_blocks(a1) == taken_blocks(a0).insert(placed_block(a0, size)),
{
    a0.lemma_wf_facts();
    let (i, k, s) = placed_block(a0, size);
    let h0 = a0.head(i);
    let h1 = a1.head(i);
    assert(0 <= i < 4);
    page_list::lemma_first_open_page(h0.pages);
    let p = h0.pages[k];
    let sc = head_class(i);
    assert(p.size_class == sc);
    cal_tools::lemma_found_slot(p.free_list@, sc);
    let pos = (s / 64) as usize;
    let b = (s % 64) as u64;
    let t = 1u64 << b;
    assert(page_list::page_slot(p) == Ok::<(usize, u64), ()>((pos, t)));
    assert(pos * 64 + cal_tools::log2(t) == s);
    let c = sc as int;
    if i == 0 {
        assert(cal_tools::slot_count(sc) * c == 4096);
    } else if i == 1 {
        assert(cal_tools::slot_count(sc) * c == 4096);
    } else if i == 2 {
        assert(cal_tools::slot_count(sc) * c == 4096);
    } else {
        assert(cal_tools::slot_count(sc) * c == 4096);
    }
    assert(s * c + c <= 4096 && s * c >= 0) by (nonlinear_arith)
        requires
            0 <= s,
            s + 1 <= cal_tools::slot_count(sc),
            cal_tools::slot_count(sc) * c == 4096,
            c > 0,
    ;
    assert(page_list::slot_address(p, pos, t) == p.addr + PAGE_HEADER_SIZE + s * c);
    assert(addr == block_addr(a0, i, k, s));
    let w = p.free_list@[pos as int];
    assert(h1.pages[k].free_list@ == p.free_list@.update(pos as int, (w + t) as u64));
    lemma_bit_added(w, b, b);
    assert(block_taken(a1, i, k, s));
    assert forall|i2: int, j2: int, s2: int|
        (i2, j2, s2) != (i, k, s) implies #[trigger] block_taken(a1, i2, j2, s2) == block_taken(a0, i2, j2, s2) by {
        if 0 <= i2 < 5 && i2 != i {
            assert(a1.head(i2) == a0.head(i2));
        } else if i2 == i && j2 != k && 0 <= j2 < h0.pages.len() {
            assert(h1.pages[j2] == h0.pages[j2]);
        } else if i2 == i && j2 == k && 0 <= s2 < cal_tools::slot_count(sc) {
            if s2 / 64 != pos as int {
                assert(h1.pages[k].free_list@[s2 / 64] == p.free_list@[s2 / 64]);
            } else {
                lemma_bit_added(w, b, (s2 % 64) as u64);
            }
        }
    }
    assert forall|i2: int, j2: int, s2: int|
        #[trigger] block_taken(a0, i2, j2, s2) implies apart(
        addr as int,
        head_class(i) as int,
        block_addr(a0, i2, j2, s2),
        head_class(i2) as int,
    ) by {
        lemma_blocks_apart(a0, i, k, s, i2, j2, s2);
    }
    assert forall|i2: int, j2: int, s2: int|
        #[trigger] is_block(a0, i2, j2, s2) implies block_addr(a1, i2, j2, s2) == block_addr(a0, i2, j2, s2) by {
        if i2 != i {
            assert(a1.head(i2) == a0.head(i2));
        } else {
            assert(h1.pages[j2].addr == h0.pages[j2].addr);
        }
    }
    assert forall|i2: int, j2: int, s2: int|
        #[trigger] is_block(a1, i2, j2, s2) == is_block(a0, i2, j2, s2) by {
        if 0 <= i2 < 5 && i2 != i {
            assert(a1.head(i2) == a0.head(i2));
        }
    }
    assert forall|t: (int, int, int)| #[trigger] taken_blocks(a1).contains(t)
        == taken_blocks(a0).insert((i, k, s)).contains(t) by {
        if t != (i, k, s) {
            assert(block_taken(a1, t.0, t.1, t.2) == block_taken(a0, t.0, t.1, t.2));
        }
    }
    assert(taken_blocks(a1) =~= taken_blocks(a0).insert((i, k, s)));
}

/// What giving back a taken block does: the release of the block's address,
/// with a size of the block's class, succeeds, the block is free afterwards,
/// and every other block keeps its place and whether it is taken. It needs
/// the total given back to fit a `usize`.
pub proof fn lemma_released_block(
    a1: &SimpleAllocator,
    i: int,
    j: int,
    s: int,
    size: usize,
    a2: &SimpleAllocator,
    r: DeallocStep,
)
    requires
        a1.wf(),
        a1.stats().flag,
        block_taken(a1, i, j, s),
        cal_tools::block_index(size) == i,
        a1.stats().deallocated + size <= usize::MAX,
        SimpleAllocator::dealloc_stepped(a1, a2, block_addr(a1, i, j, s) as usize, size, r),
    ensures
        r is Released,
        !block_taken(a2, i, j, s),
        forall|i2: int, j2: int, s2: int|
            #![trigger block_taken(a2, i2, j2, s2)]
            (i2, j2, s2) != (i, j, s) ==> block_taken(a2, i2, j2, s2) == block_taken(a1, i2, j2, s2),
        forall|i2: int, j2: int, s2: int|
            #[trigger] is_block(a2, i2, j2, s2) == is_block(a1, i2, j2, s2),
        forall|i2: int, j2: int, s2: int|
            #[trigger] is_block(a1, i2, j2, s2) ==> block_addr(a2, i2, j2, s2) == block_addr(a1, i2, j2, s2),
        taken_blocks(a2) == taken_blocks(a1).remove((i, j, s)),
{
    a1.lemma_wf_facts();
    let h1 = a1.head(i);
    let h2 = a2.head(i);
    let p = h1.pages[j];
    let sc = head_class(i);
    let c = sc as int;
    let addr = block_addr(a1, i, j, s) as usize;
    assert(cal_tools::slot_count(sc) * c == 4096);
    assert(s * c + c <= 4096 && s * c >= 0) by (nonlinear_arith)
        requires
            0 <= s,
            s + 1 <= cal_tools::slot_count(sc),
            cal_tools::slot_count(sc) * c == 4096,
            c > 0,
    ;
    assert(p.addr + PAGE_HEADER_SIZE + PAGE_DATA_SIZE <= usize::MAX);
    assert(addr as int == p.addr + PAGE_HEADER_SIZE + s * c);
    page_list::lemma_first_holding_page(h1.pages, j, addr);
    assert((s * c) / c == s) by (nonlinear_arith)
        requires
            c > 0,
            s >= 0,
    ;
    let pos = (s / 64) as usize;
    let b = (s % 64) as u64;
    let t = 1u64 << b;
    let w = p.free_list@[pos as int];
    lemma_bit_removed(w, b, b);
    assert(page_list::release_target(h1, addr) == Some::<(int, usize, u64)>((j, pos, t)));
    assert(r is Released);
    assert(h2.pages[j].free_list@ == p.free_list@.update(pos as int, (w - t) as u64));
    assert forall|i2: int, j2: int, s2: int|
        (i2, j2, s2) != (i, j, s) implies #[trigger] block_taken(a2, i2, j2, s2) == block_taken(a1, i2, j2, s2) by {
        if 0 <= i2 < 5 && i2 != i {
            assert(a2.head(i2) == a1.head(i2));
        } else if i2 == i && j2 != j && 0 <= j2 < h1.pages.len() {
            assert(h2.pages[j2] == h1.pages[j2]);
        } else if i2 == i && j2 == j && 0 <= s2 < cal_tools::slot_count(sc) {
            if s2 / 64 != pos as int {
                assert(h2.pages[j].free_list@[s2 / 64] == p.free_list@[s2 / 64]);
            } else {
                lemma_bit_removed(w, b, (s2 % 64) as u64);
            }
        }
    }
    assert forall|i2: int, j2: int, s2: int|
        #[trigger] is_block(a1, i2, j2, s2) implies block_addr(a2, i2, j2, s2) == block_addr(a1, i2, j2, s2) by {
        if i2 != i {
            assert(a2.head(i2) == a1.head(i2));
        } else {
            assert(h2.pages[j2].addr == h1.pages[j2].addr);
        }
    }
    assert forall|i2: int, j2: int, s2: int|
        #[trigger] is_block(a2, i2, j2, s2) == is_block(a1, i2, j2, s2) by {
        if 0 <= i2 < 5 && i2 != i {
            assert(a2.head(i2) == a1.head(i2));
        }
    }
    assert(!block_taken(a2, i, j, s));
    assert forall|t: (int, int, int)| #[trigger] taken_blocks(a2).contains(t)
        == taken_blocks(a1).remove((i, j, s)).contains(t) by {
        if t != (i, j, s) {
            assert(block_taken(a2, t.0, t.1, t.2) == block_taken(a1, t.0, t.1, t.2));
        }
    }
    assert(taken_blocks(a2) =~= taken_blocks(a1).remove((i, j, s)));
}

/// Taken blocks never overlap: any two different blocks taken in a
/// well-formed allocator lie apart.
pub proof fn lemma_taken_blocks_apart(a: &SimpleAllocator, t1: (int, int, int), t2: (int, int, int))
    requires
        a.wf(),
        taken_blocks(a).contains(t1),
        taken_blocks(a).contains(t2),
        t1 != t2,
    ensures
        apart(block_addr(a, t1.0, t1.1, t1.2), head_class(t1.0) as int, block_addr(a, t2.0, t2.1, t2.2), head_class(t2.0) as int),
{
    lemma_blocks_apart(a, t1.0, t1.1, t1.2, t2.0, t2.1, t2.2);
}

/// The steps that touch no small list keep the taken blocks, and their
/// places: any change that leaves lists 0 to 3 as they were, and `add_page`,
/// whose new page has none taken.
pub proof fn lemma_taken_blocks_kept(a1: &SimpleAllocator, a2: &SimpleAllocator)
    requires
        forall|i: int| 0 <= i < 4 ==> #[trigger] a2.head(i) == a1.head(i),
    ensures
        taken_blocks(a2) == taken_blocks(a1),
        forall|i: int, j: int, s: int| #[trigger] is_block(a1, i, j, s) ==> is_block(a2, i, j, s)
            && block_addr(a2, i, j, s) == block_addr(a1, i, j, s),
{
    assert forall|t: (int, int, int)| #[trigger] taken_blocks(a2).contains(t) == taken_blocks(a1).contains(t) by {
        if 0 <= t.0 < 4 {
            assert(a2.head(t.0) == a1.head(t.0));
        }
    }
    assert(taken_blocks(a2) =~= taken_blocks(a1));
    assert forall|i: int, j: int, s: int| #[trigger] is_block(a1, i, j, s) implies is_block(a2, i, j, s)
        && block_addr(a2, i, j, s) == block_addr(a1, i, j, s) by {
        assert(a2.head(i) == a1.head(i));
    }
}

/// `add_page` keeps the taken blocks and their places: its new page has no
/// block taken.
pub proof fn lemma_page_added_keeps_taken(a1: &SimpleAllocator, a2: &SimpleAllocator, i: int, base: usize)
    requires
        0 <= i < 4,
        a1.head(i).size_class == head_class(i),
        SimpleAllocator::page_added(a1, a2, i, base),
    ensures
        taken_blocks(a2) == taken_blocks(a1),
        forall|i2: int, j: int, s: int| #[trigger] is_block(a1, i2, j, s) ==> is_block(a2, i2, j, s)
            && block_addr(a2, i2, j, s) == block_addr(a1, i2, j, s),
{
    let n = a1.head(i).pages.len() as int;
    assert forall|j: int| 0 <= j < n implies #[trigger] a2.head(i).pages[j] == a1.head(i).pages[j] by {
        assert(a2.head(i).pages[j] == a2.head(i).pages.drop_last()[j]);
    }
    let last = a2.head(i).pages[n];
    assert(last == a2.head(i).pages.last());
    assert forall|t: (int, int, int)| #[trigger] taken_blocks(a2).contains(t) == taken_blocks(a1).contains(t) by {
        if 0 <= t.0 < 5 && t.0 != i {
            assert(a2.head(t.0) == a1.head(t.0));
        } else if t.0 == i && t.1 == n && 0 <= t.2 < cal_tools::slot_count(head_class(i)) {
            let w = last.free_list@[t.2 / 64];
            assert(w == 0u64);
            let b = (t.2 % 64) as u64;
            assert(!((0u64 >> b) & 1u64 == 1u64)) by (bit_vector);
        }
    }
    assert(taken_blocks(a2) =~= taken_blocks(a1));
    assert forall|i2: int, j: int, s: int| #[trigger] is_block(a1, i2, j, s) implies is_block(a2, i2, j, s)
        && block_addr(a2, i2, j, s) == block_addr(a1, i2, j, s) by {
        if i2 != i {
            assert(a2.head(i2) == a1.head(i2));
        }
    }
}

/// Pages that keep their places keep the allocator's pages apart.
proof fn lemma_apart_same_places(a: &SimpleAllocator, b: &SimpleAllocator)
    requires
        a.pages_apart(),
        forall|i: int| 0 <= i < 5 ==> (#[trigger] b.head(i)).pages.len() == a.head(i).pages.len(),
        forall|i: int, j: int|
            0 <= i < 5 && 0 <= j < a.head(i).pages.len() ==> (#[trigger] b.head(i).pages[j]).addr
                == a.head(i).pages[j].addr && b.head(i).pages[j].size_class
                == a.head(i).pages[j].size_class,
    ensures
        b.pages_apart(),
{
    assert forall|i1: int, j1: int, i2: int, j2: int|
        0 <= i1 < 5 && 0 <= i2 < 5 && 0 <= j1 < b.head(i1).pages.len() && 0 <= j2
            < b.head(i2).pages.len() && (i1 != i2 || j1 != j2) implies #[trigger] apart(
        b.head(i1).pages[j1].addr as int,
        page_span(i1, b.head(i1).pages[j1]),
        b.head(i2).pages[j2].addr as int,
        page_span(i2, b.head(i2).pages[j2]),
    ) by {
        assert(b.head(i1).pages[j1].addr == a.head(i1).pages[j1].addr);
        assert(b.head(i2).pages[j2].addr == a.head(i2).pages[j2].addr);
        assert(a.head(i1).pages[j1] == a.head(i1).pages[j1] && a.head(i2).pages[j2]
            == a.head(i2).pages[j2]);
    }
}

/// A page added where no page lies keeps the allocator's pages apart.
proof fn lemma_apart_added(a: &SimpleAllocator, b: &SimpleAllocator, i: int, base: usize)
    requires
        a.pages_apart(),
        0 <= i < 5,
        b.head(i).pages.len() == a.head(i).pages.len() + 1,
        b.head(i).pages.drop_last() == a.head(i).pages,
        b.head(i).pages.last().addr == base,
        a.region_free(base as int, page_span(i, b.head(i).pages.last())),
        SimpleAllocator::heads_same_except(a, b, i),
    ensures
        b.pages_apart(),
{
    let n = a.head(i).pages.len() as int;
    assert forall|i0: int, j0: int|
        0 <= i0 < 5 && 0 <= j0 < b.head(i0).pages.len() && !(i0 == i && j0 == n) implies
        #[trigger] b.head(i0).pages[j0] == a.head(i0).pages[j0] by {
        if i0 == i {
            assert(b.head(i).pages[j0] == b.head(i).pages.drop_last()[j0]);
        }
    }
    assert forall|i1: int, j1: int, i2: int, j2: int|
        0 <= i1 < 5 && 0 <= i2 < 5 && 0 <= j1 < b.head(i1).pages.len() && 0 <= j2
            < b.head(i2).pages.len() && (i1 != i2 || j1 != j2) implies #[trigger] apart(
        b.head(i1).pages[j1].addr as int,
        page_span(i1, b.head(i1).pages[j1]),
        b.head(i2).pages[j2].addr as int,
        page_span(i2, b.head(i2).pages[j2]),
    ) by {
        let new1 = i1 == i && j1 == n;
        let new2 = i2 == i && j2 == n;
        if new1 {
            assert(b.head(i2).pages[j2] == a.head(i2).pages[j2]);
            assert(b.head(i1).pages[j1] == b.head(i).pages.last());
            assert(apart(
                base as int,
                page_span(i, b.head(i).pages.last()),
                a.head(i2).pages[j2].addr as int,
                page_span(i2, a.head(i2).pages[j2]),
            ));
        } else if new2 {
            assert(b.head(i1).pages[j1] == a.head(i1).pages[j1]);
            assert(b.head(i2).pages[j2] == b.head(i).pages.last());
            assert(apart(
                base as int,
                page_span(i, b.head(i).pages.last()),
                a.head(i1).pages[j1].addr as int,
                page_span(i1, a.head(i1).pages[j1]),
            ));
        } else {
            assert(b.head(i1).pages[j1] == a.head(i1).pages[j1]);
            assert(b.head(i2).pages[j2] == a.head(i2).pages[j2]);
        }
    }
}

/// Taking a page out of the list of large pages keeps the allocator's pages
/// apart.
proof fn lemma_apart_removed(a: &SimpleAllocator, b: &SimpleAllocator, k: int)
    requires
        a.pages_apart(),
        0 <= k < a.head(4).pages.len(),
        b.head(4).pages == a.head(4).pages.remove(k),
        SimpleAllocator::heads_same_except(a, b, 4),
    ensures
        b.pages_apart(),
{
    assert forall|i1: int, j1: int, i2: int, j2: int|
        0 <= i1 < 5 && 0 <= i2 < 5 && 0 <= j1 < b.head(i1).pages.len() && 0 <= j2
            < b.head(i2).pages.len() && (i1 != i2 || j1 != j2) implies #[trigger] apart(
        b.head(i1).pages[j1].addr as int,
        page_span(i1, b.head(i1).pages[j1]),
        b.head(i2).pages[j2].addr as int,
        page_span(i2, b.head(i2).pages[j2]),
    ) by {
        let o1 = if i1 == 4 && j1 >= k { j1 + 1 } else { j1 };
        let o2 = if i2 == 4 && j2 >= k { j2 + 1 } else { j2 };
        assert(b.head(i1).pages[j1] == a.head(i1).pages[o1]);
        assert(b.head(i2).pages[j2] == a.head(i2).pages[o2]);
        assert(a.head(i1).pages[o1] == a.head(i1).pages[o1] && a.head(i2).pages[o2]
            == a.head(i2).pages[o2]);
    }
}

/// A request is sent for a new page only when its list has no free block:
/// `NeedPage(i)` comes back only for the list of the request's size class, with
/// counting on, and with every slot of every page of that list taken.
pub proof fn lemma_need_page_means_full(a0: &SimpleAllocator, a1: &SimpleAllocator, size: usize, i: usize)
    requires
        a0.wf(),
        SimpleAllocator::alloc_stepped(a0, a1, size, AllocStep::NeedPage(i)),
    ensures
        a0.stats().flag,
        i == cal_tools::block_index(size),
        i < 4,
        forall|j: int, q: int|
            0 <= j < a0.head(i as int).pages.len() && 0 <= q < cal_tools::slot_count(head_class(i as int))
                ==> #[trigger] cal_tools::slot_used(a0.head(i as int).pages[j].free_list@, q),
        a1.stats() == a0.stats(),
        forall|i2: int| 0 <= i2 < 5 ==> #[trigger] a1.head(i2) == a0.head(i2),
{
    a0.lemma_wf_facts();
    page_list::lemma_all_pages_full_means_every_slot_taken(a0.head(i as int));
}

/// A request is served first fit: with counting on and a size of a small
/// class, `alloc_step` takes the lowest free slot of the first page of the
/// class's list that has one, every page before it being full, and hands out
/// that slot's address; the slot is taken afterwards.
pub proof fn lemma_alloc_first_fit(a0: &SimpleAllocator, a1: &SimpleAllocator, size: usize, addr: usize)
    requires
        a0.wf(),
        SimpleAllocator::alloc_stepped(a0, a1, size, AllocStep::Placed(addr)),
    ensures
        a0.stats().flag,
        cal_tools::block_index(size) < 4,
        exists|k: int, s: int|
            #![trigger a0.head(cal_tools::block_index(size) as int).pages[k], block_taken(a0, cal_tools::block_index(size) as int, k, s)]
            {
                let i = cal_tools::block_index(size) as int;
                &&& is_block(a0, i, k, s)
                &&& !block_taken(a0, i, k, s)
                &&& (forall|q: int| 0 <= q < s ==> block_taken(a0, i, k, q))
                &&& (forall|j: int, q: int|
                    0 <= j < k && 0 <= q < cal_tools::slot_count(head_class(i))
                        ==> #[trigger] block_taken(a0, i, j, q))
                &&& addr == block_addr(a0, i, k, s)
                &&& block_taken(a1, i, k, s)
            },
{
    a0.lemma_wf_facts();
    let i = cal_tools::block_index(size) as int;
    let h0 = a0.head(i);
    let h1 = a1.head(i);
    page_list::lemma_take_slot_first_fit(h0, h1, addr);
    let (k, s) = choose|k: int, s: int|
        #![trigger h0.pages[k], cal_tools::slot_used(h0.pages[k].free_list@, s)]
        {
            &&& 0 <= k < h0.pages.len()
            &&& 0 <= s < cal_tools::slot_count(h0.size_class)
            &&& !cal_tools::slot_used(h0.pages[k].free_list@, s)
            &&& (forall|q: int| 0 <= q < s ==> cal_tools::slot_used(h0.pages[k].free_list@, q))
            &&& (forall|j: int, q: int|
                0 <= j < k && 0 <= q < cal_tools::slot_count(h0.size_class)
                    ==> #[trigger] cal_tools::slot_used(h0.pages[j].free_list@, q))
            &&& addr == h0.pages[k].addr + PAGE_HEADER_SIZE + s * h0.size_class
            &&& cal_tools::slot_used(h1.pages[k].free_list@, s)
        };
    assert(is_block(a0, i, k, s));
    assert(!block_taken(a0, i, k, s));
    assert forall|j: int, q: int|
        0 <= j < k && 0 <= q < cal_tools::slot_count(head_class(i)) implies #[trigger] block_taken(a0, i, j, q) by {
        assert(cal_tools::slot_used(h0.pages[j].free_list@, q));
    }
    assert(block_taken(a1, i, k, s));
    assert(addr == block_addr(a0, i, k, s));
}

/// The record keeps requests in order: while it has room, an entry goes to
/// the next place and nothing else changes; once it is full, recording
/// changes nothing.
pub proof fn lemma_record_appends(c: CountView, size: usize, flag: usize)
    requires
        c.alloc_msg.len() == MSG_CAPACITY,
    ensures
        c.alloc_msg_point >= MSG_CAPACITY ==> after_record(c, size, flag) == c,
        c.alloc_msg_point < MSG_CAPACITY ==> {
            let n = after_record(c, size, flag);
            &&& n.alloc_msg_point == c.alloc_msg_point + 1
            &&& n.alloc_msg.len() == MSG_CAPACITY
            &&& n.alloc_msg[c.alloc_msg_point as int] == (flag, size)
            &&& forall|k: int| 0 <= k < MSG_CAPACITY && k != c.alloc_msg_point ==> #[trigger] n.alloc_msg[k] == c.alloc_msg[k]
            &&& n.allocated == c.allocated && n.deallocated == c.deallocated && n.peak == c.peak
            &&& n.flag == c.flag && n.temp == c.temp
        },
{
}

} // verus!
