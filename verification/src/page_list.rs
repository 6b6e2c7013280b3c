//! The pages of a size class and the lists that hold them.
//!
//! A page of a small size class is a header of `PAGE_HEADER_SIZE` bytes
//! followed by `PAGE_DATA_SIZE` bytes of data, cut into blocks of its size
//! class; its free list is a bitmap of 4 words in which a set bit marks a
//! block that is taken. A large page holds one block of any size. The memory
//! of a page is obtained elsewhere; a list holds the address where each of its
//! pages starts, in the order in which they were added.
use vstd::prelude::*;
use crate::cal_tools;
use crate::cal_tools::{cal_position, decal_position, power_int};

verus! {

/// Size in bytes of the header that precedes the data of every page.
pub const PAGE_HEADER_SIZE: usize = 48;

/// Size in bytes of the data of a page of a small size class.
pub const PAGE_DATA_SIZE: usize = 4096;

/// A page: where it starts, its free list, and the size of its blocks (for a
/// large page, the size of its one block).
#[derive(Clone, Copy, Debug, PartialEq, Eq)]
pub struct MyPage {
    pub addr: usize,
    pub free_list: [u64; 4],
    pub size_class: usize,
}

/// The pages of one size class, oldest first.
pub struct PageListHead {
    pages: Vec<MyPage>,
    size_class: usize,
}

/// What a `PageListHead` holds: its size class and its pages, oldest first.
pub struct PageListView {
    pub size_class: usize,
    pub pages: Seq<MyPage>,
}

impl View for PageListHead {
    type V = PageListView;

    closed spec fn view(&self) -> PageListView {
        PageListView { size_class: self.size_class, pages: self.pages@ }
    }
}

/// The first index at or after `k` of an item of `s` that meets `pred`, or
/// the length of `s` where none does.
pub open spec fn first_index_from<A>(s: Seq<A>, pred: spec_fn(A) -> bool, k: int) -> int
    decreases s.len() - k,
{
    if k >= s.len() {
        s.len() as int
    } else if pred(s[k]) {
        k
    } else {
        first_index_from(s, pred, k + 1)
    }
}

/// The first index of an item of `s` that meets `pred`, or the length of `s`.
pub open spec fn first_index<A>(s: Seq<A>, pred: spec_fn(A) -> bool) -> int {
    first_index_from(s, pred, 0)
}

proof fn lemma_first_index_at<A>(s: Seq<A>, pred: spec_fn(A) -> bool, from: int, k: int)
    requires
        0 <= from <= k < s.len(),
        forall|j: int| from <= j < k ==> !pred(#[trigger] s[j]),
        pred(s[k]),
    ensures
        first_index_from(s, pred, from) == k,
    decreases k - from,
{
    if from < k {
        lemma_first_index_at(s, pred, from + 1, k);
    }
}

proof fn lemma_first_index_none<A>(s: Seq<A>, pred: spec_fn(A) -> bool, from: int)
    requires
        0 <= from <= s.len(),
        forall|j: int| from <= j < s.len() ==> !pred(#[trigger] s[j]),
    ensures
        first_index_from(s, pred, from) == s.len(),
    decreases s.len() - from,
{
    if from < s.len() {
        lemma_first_index_none(s, pred, from + 1);
    }
}

/// A size class whose pages are cut into blocks: 16, 32, 64 or 128 bytes.
pub open spec fn small_class(size_class: usize) -> bool {
    size_class == 16 || size_class == 32 || size_class == 64 || size_class == 128
}

/// A list of pages of a small size class, each of that class and lying within
/// the address space.
pub open spec fn small_list_wf(h: PageListView) -> bool {
    &&& small_class(h.size_class)
    &&& forall|j: int|
        0 <= j < h.pages.len() ==> (#[trigger] h.pages[j]).size_class == h.size_class
            && h.pages[j].addr + PAGE_HEADER_SIZE + PAGE_DATA_SIZE <= usize::MAX
}

/// A list of large pages, each lying within the address space.
pub open spec fn large_list_wf(h: PageListView) -> bool {
    forall|j: int|
        0 <= j < h.pages.len() ==> (#[trigger] h.pages[j]).addr + PAGE_HEADER_SIZE
            + h.pages[j].size_class <= usize::MAX
}

/// A page just added: it starts at `addr`, has no block taken and has blocks
/// of `size_class` bytes.
pub open spec fn fresh_page(p: MyPage, addr: usize, size_class: usize) -> bool {
    &&& p.addr == addr
    &&& p.size_class == size_class
    &&& p.free_list@ == seq![0u64, 0u64, 0u64, 0u64]
}

/// The free block that `cal_position` finds in a page.
pub open spec fn page_slot(p: MyPage) -> Result<(usize, u64), ()> {
    cal_tools::cal_position_spec(p.free_list@, p.size_class)
}

/// Whether a page has a free block.
pub open spec fn page_is_open(p: MyPage) -> bool {
    page_slot(p) is Ok
}

/// The first page of a list that has a free block, or the number of pages.
pub open spec fn first_open_page(pages: Seq<MyPage>) -> int {
    first_index(pages, |p: MyPage| page_is_open(p))
}

/// The address handed out for the block at word `pos` and mask `t` of page
/// `p`: the page's data start plus the block's slot (64 per word, then the
/// bit index of `t`) times the block size.
pub open spec fn slot_address(p: MyPage, pos: usize, t: u64) -> int {
    p.addr + PAGE_HEADER_SIZE + (pos * 64 + cal_tools::log2(t)) * p.size_class
}

/// Whether `after` is `before` with word `pos` of the free list of page `k` set to
/// `v`, and every other page unchanged.
pub open spec fn word_updated(
    before: Seq<MyPage>,
    after: Seq<MyPage>,
    k: int,
    pos: usize,
    v: u64,
) -> bool {
    &&& after.len() == before.len()
    &&& 0 <= k < before.len()
    &&& forall|j: int| 0 <= j < before.len() && j != k ==> after[j] == before[j]
    &&& after[k].addr == before[k].addr
    &&& after[k].size_class == before[k].size_class
    &&& after[k].free_list@ == before[k].free_list@.update(pos as int, v)
}

/// What `take_slot` does: in the first page with a free block, the bit of the
/// block that `cal_position` finds is added to its word, and the block's
/// address is the result; where no page has a free block, nothing changes and
/// the result is `None`.
pub open spec fn took_slot(before: PageListView, after: PageListView, r: Option<usize>) -> bool {
    let k = first_open_page(before.pages);
    &&& after.size_class == before.size_class
    &&& if k < before.pages.len() {
        match page_slot(before.pages[k]) {
            Ok((pos, t)) => {
                &&& r == Some(slot_address(before.pages[k], pos, t) as usize)
                &&& word_updated(
                    before.pages,
                    after.pages,
                    k,
                    pos,
                    (before.pages[k].free_list@[pos as int] + t) as u64,
                )
            },
            Err(_) => false,
        }
    } else {
        r is None && after.pages == before.pages
    }
}

/// Whether `addr` lies in the data of page `p`, its end included.
pub open spec fn page_holds(p: MyPage, addr: usize) -> bool {
    p.addr + PAGE_HEADER_SIZE <= addr <= p.addr + PAGE_HEADER_SIZE + PAGE_DATA_SIZE
}

/// The first page of a list whose data holds `addr`, or the number of pages.
pub open spec fn first_holding_page(pages: Seq<MyPage>, addr: usize) -> int {
    first_index(pages, |p: MyPage| page_holds(p, addr))
}

/// The page, word and mask that `release_slot` clears for `addr`: the block
/// of the first page that holds `addr`, at the offset of `addr` from the
/// page's data divided by the list's size class. `None` where no page holds
/// `addr`, where the size class is 0, where the word lies past the free list,
/// or where the word is smaller than the mask.
pub open spec fn release_target(h: PageListView, addr: usize) -> Option<(int, usize, u64)> {
    let k = first_holding_page(h.pages, addr);
    if k < h.pages.len() && h.size_class != 0 {
        let p = h.pages[k];
        let slot = (addr - (p.addr + PAGE_HEADER_SIZE)) / (h.size_class as int);
        let (pos, t) = cal_tools::slot_position(slot);
        if pos < 4 && p.free_list@[pos as int] >= t {
            Some((k, pos, t))
        } else {
            None
        }
    } else {
        None
    }
}

/// What `release_slot` does: the mask of the target block is subtracted from
/// its word and the result is `true`; where there is no target, nothing
/// changes and the result is `false`.
pub open spec fn released(before: PageListView, after: PageListView, addr: usize, ok: bool) -> bool {
    &&& after.size_class == before.size_class
    &&& match release_target(before, addr) {
        Some((k, pos, t)) => {
            &&& ok
            &&& word_updated(
                before.pages,
                after.pages,
                k,
                pos,
                (before.pages[k].free_list@[pos as int] - t) as u64,
            )
        },
        None => !ok && after.pages == before.pages,
    }
}

/// The first page of a list whose data starts at `addr`, or the number of
/// pages.
pub open spec fn first_page_at(pages: Seq<MyPage>, addr: usize) -> int {
    first_index(pages, |p: MyPage| p.addr + PAGE_HEADER_SIZE == addr)
}

/// What `remove_large` does: the first page whose data starts at `addr` leaves
/// the list and its start is the result; where there is none, nothing changes
/// and the result is `None`.
pub open spec fn removed_large(before: PageListView, after: PageListView, addr: usize, r: Option<usize>) -> bool {
    let k = first_page_at(before.pages, addr);
    &&& after.size_class == before.size_class
    &&& if k < before.pages.len() {
        r == Some(before.pages[k].addr) && after.pages == before.pages.remove(k)
    } else {
        r is None && after.pages == before.pages
    }
}

/// For a page of a small size class with a free block, the block is the first
/// free slot of the page, it lies within the page's data, and its mask is a
/// single bit clear in its word.
proof fn lemma_slot_in_page(p: MyPage)
    requires
        small_class(p.size_class),
        page_is_open(p),
    ensures
        ({
            let s = cal_tools::first_free(p.free_list@, cal_tools::slot_count(p.size_class));
            &&& 0 <= s < cal_tools::slot_count(p.size_class)
            &&& page_slot(p) == Ok::<(usize, u64), ()>(cal_tools::slot_position(s))
            &&& !cal_tools::slot_used(p.free_list@, s)
        }),
        match page_slot(p) {
            Ok((pos, t)) => {
                &&& pos < 4
                &&& t != 0
                &&& cal_tools::log2(t) < 64
                &&& pos * 64 + cal_tools::log2(t) == cal_tools::first_free(
                    p.free_list@,
                    cal_tools::slot_count(p.size_class),
                )
                &&& (pos * 64 + cal_tools::log2(t)) * p.size_class <= 4080
                &&& p.free_list@[pos as int] + t <= u64::MAX
            },
            Err(_) => false,
        },
{
    cal_tools::lemma_found_slot(p.free_list@, p.size_class);
    let s = cal_tools::first_free(p.free_list@, cal_tools::slot_count(p.size_class));
    if p.size_class == 16 {
        assert(s * 16 <= 4080);
    } else if p.size_class == 32 {
        assert(s * 32 <= 4080);
    } else if p.size_class == 64 {
        assert(s * 64 <= 4080);
    } else {
        assert(s * 128 <= 4080);
    }
}

impl PageListHead {
    /// An empty list for blocks of `size_class` bytes.
    pub fn new(size_class: usize) -> (h: PageListHead)
        ensures
            h@.size_class == size_class,
            h@.pages == Seq::<MyPage>::empty(),
    {
        PageListHead { pages: Vec::new(), size_class: size_class }
    }

    /// The block size of this list.
    pub fn get_sizeclass(&self) -> (r: usize)
        ensures
            r == self@.size_class,
    {
        self.size_class
    }

    /// The number of pages of this list.
    pub fn page_count(&self) -> (r: usize)
        ensures
            r == self@.pages.len(),
    {
        self.pages.len()
    }

    /// Page `k` of this list, the oldest first.
    pub fn page(&self, k: usize) -> (p: MyPage)
        requires
            k < self@.pages.len(),
        ensures
            p == self@.pages[k as int],
    {
        self.pages[k]
    }

    /// Adds a page of this list's size class that starts at `base`, with no
    /// block taken, after the other pages; returns `base`.
    pub fn reserve_page(&mut self, base: usize) -> (r: usize)
        requires
            base + PAGE_HEADER_SIZE + PAGE_DATA_SIZE <= usize::MAX,
        ensures
            r == base,
            final(self)@.size_class == old(self)@.size_class,
            final(self)@.pages.len() == old(self)@.pages.len() + 1,
            final(self)@.pages.drop_last() == old(self)@.pages,
            fresh_page(final(self)@.pages.last(), base, old(self)@.size_class),
    {
        let page = MyPage { addr: base, free_list: [0, 0, 0, 0], size_class: self.size_class };
        self.pages.push(page);
        proof {
            assert(final(self)@.pages.drop_last() =~= old(self)@.pages) by {
                assert(self.pages@.drop_last() =~= old(self).pages@);
            }
        }
        base
    }

    /// Adds a large page of `page_size` bytes that starts at `base`, after the
    /// other pages; returns `base`.
    pub fn reserve_large_page(&mut self, base: usize, page_size: usize) -> (r: usize)
        requires
            base + PAGE_HEADER_SIZE + page_size <= usize::MAX,
        ensures
            r == base,
            final(self)@.size_class == old(self)@.size_class,
            final(self)@.pages.len() == old(self)@.pages.len() + 1,
            final(self)@.pages.drop_last() == old(self)@.pages,
            fresh_page(final(self)@.pages.last(), base, page_size),
    {
        let page = MyPage { addr: base, free_list: [0, 0, 0, 0], size_class: page_size };
        self.pages.push(page);
        proof {
            assert(self.pages@.drop_last() =~= old(self).pages@);
        }
        base
    }
}


impl PageListHead {
    /// Takes the first free block of the first page that has one (see
    /// `took_slot`) and returns its address, or `None` where every page is
    /// full.
    pub fn take_slot(&mut self) -> (r: Option<usize>)
        requires
            small_list_wf(old(self)@),
        ensures
            took_slot(old(self)@, final(self)@, r),
            small_list_wf(final(self)@),
    {
        let ghost pred = |p: MyPage| page_is_open(p);
        let mut k: usize = 0;
        while k < self.pages.len()
            invariant
                self@ == old(self)@,
                small_list_wf(self@),
                k <= self.pages@.len(),
                pred == (|p: MyPage| page_is_open(p)),
                forall|j: int| 0 <= j < k ==> !pred(#[trigger] self.pages@[j]),
            decreases self.pages@.len() - k,
        {
            let p: MyPage = self.pages[k];
            let found = cal_position(&p.free_list, p.size_class);
            match found {
                Ok((pos, t)) => {
                    proof {
                        assert(p == self@.pages[k as int]);
                        lemma_slot_in_page(p);
                        lemma_first_index_at(self.pages@, pred, 0, k as int);
                    }
                    let mut q = p;
                    q.free_list[pos] = q.free_list[pos] + t;
                    let offset = (pos * 64 + power_int(t)) * q.size_class;
                    let addr = q.addr + PAGE_HEADER_SIZE + offset;
                    self.pages.set(k, q);
                    return Some(addr);
                },
                Err(_) => {
                    k = k + 1;
                },
            }
        }
        proof {
            lemma_first_index_none(self.pages@, pred, 0);
        }
        None
    }

    /// Gives back the block at `addr` (see `released`): `true` when its bit
    /// was cleared, `false`, with nothing changed, where there is no such
    /// block.
    pub fn release_slot(&mut self, addr: usize) -> (ok: bool)
        requires
            small_list_wf(old(self)@),
        ensures
            released(old(self)@, final(self)@, addr, ok),
            small_list_wf(final(self)@),
    {
        let ghost pred = |p: MyPage| page_holds(p, addr);
        let mut k: usize = 0;
        while k < self.pages.len()
            invariant
                self@ == old(self)@,
                small_list_wf(self@),
                k <= self.pages@.len(),
                pred == (|p: MyPage| page_holds(p, addr)),
                forall|j: int| 0 <= j < k ==> !pred(#[trigger] self.pages@[j]),
            decreases self.pages@.len() - k,
        {
            let p: MyPage = self.pages[k];
            proof {
                assert(p == self@.pages[k as int]);
            }
            let start = p.addr + PAGE_HEADER_SIZE;
            if addr >= start && addr <= start + PAGE_DATA_SIZE {
                proof {
                    lemma_first_index_at(self.pages@, pred, 0, k as int);
                }
                if self.size_class == 0 {
                    return false;
                }
                let offset = addr - start;
                let (pos, t) = decal_position(offset / self.size_class, self.size_class);
                if pos >= 4 {
                    return false;
                }
                if p.free_list[pos] < t {
                    return false;
                }
                let mut q = p;
                q.free_list[pos] = q.free_list[pos] - t;
                self.pages.set(k, q);
                return true;
            }
            k = k + 1;
        }
        proof {
            lemma_first_index_none(self.pages@, pred, 0);
        }
        false
    }

    /// Takes out of the list the first page whose data starts at `addr` and
    /// returns where that page starts, or `None`, with nothing changed, where
    /// there is no such page (see `removed_large`).
    pub fn remove_large(&mut self, addr: usize) -> (r: Option<usize>)
        requires
            large_list_wf(old(self)@),
        ensures
            removed_large(old(self)@, final(self)@, addr, r),
            large_list_wf(final(self)@),
    {
        let ghost pred = |p: MyPage| p.addr + PAGE_HEADER_SIZE == addr;
        let mut k: usize = 0;
        while k < self.pages.len()
            invariant
                self@ == old(self)@,
                large_list_wf(self@),
                k <= self.pages@.len(),
                pred == (|p: MyPage| p.addr + PAGE_HEADER_SIZE == addr),
                forall|j: int| 0 <= j < k ==> !pred(#[trigger] self.pages@[j]),
            decreases self.pages@.len() - k,
        {
            let base = self.pages[k].addr;
            proof {
                assert(self.pages@[k as int] == self@.pages[k as int]);
            }
            if base + PAGE_HEADER_SIZE == addr {
                proof {
                    lemma_first_index_at(self.pages@, pred, 0, k as int);
                }
                let ghost before = self@;
                self.pages.remove(k);
                proof {
                    assert forall|j: int| 0 <= j < self@.pages.len() implies
                        (#[trigger] self@.pages[j]).addr + PAGE_HEADER_SIZE + self@.pages[j].size_class <= usize::MAX by {
                        if j < k {
                            assert(self@.pages[j] == before.pages[j]);
                        } else {
                            assert(self@.pages[j] == before.pages[j + 1]);
                        }
                    }
                }
                return Some(base);
            }
            k = k + 1;
        }
        proof {
            lemma_first_index_none(self.pages@, pred, 0);
        }
        None
    }
}


/// No two pages of a list overlap: the header and data of each lie outside
/// those of every other.
pub open spec fn pages_disjoint(pages: Seq<MyPage>) -> bool {
    forall|i: int, j: int|
        0 <= i < pages.len() && 0 <= j < pages.len() && i != j ==> #[trigger] pages[i].addr
            + PAGE_HEADER_SIZE + PAGE_DATA_SIZE <= #[trigger] pages[j].addr || pages[j].addr
            + PAGE_HEADER_SIZE + PAGE_DATA_SIZE <= pages[i].addr
}

/// Whether no page of a list has a free block.
pub open spec fn all_pages_full(pages: Seq<MyPage>) -> bool {
    forall|j: int| 0 <= j < pages.len() ==> !page_is_open(#[trigger] pages[j])
}

/// `first_open_page` is the index of a page with a free block, or the
/// number of pages exactly where every page is full.
pub proof fn lemma_first_open_page(pages: Seq<MyPage>)
    ensures
        0 <= first_open_page(pages) <= pages.len(),
        first_open_page(pages) < pages.len() ==> page_is_open(pages[first_open_page(pages)]),
        (first_open_page(pages) == pages.len()) == all_pages_full(pages),
{
    let pred = |p: MyPage| page_is_open(p);
    lemma_first_index_props(pages, pred, 0);
    if first_open_page(pages) == pages.len() {
        assert forall|j: int| 0 <= j < pages.len() implies !page_is_open(#[trigger] pages[j]) by {
            assert(!pred(pages[j]));
        }
    }
}

/// An address that `take_slot` hands out lies in the data of the page whose
/// block it took, before the end of that data.
pub proof fn lemma_taken_address_in_page(h0: PageListView, h1: PageListView, a: usize)
    requires
        small_list_wf(h0),
        took_slot(h0, h1, Some(a)),
    ensures
        ({
            let k = first_open_page(h0.pages);
            &&& 0 <= k < h0.pages.len()
            &&& h0.pages[k].addr + PAGE_HEADER_SIZE <= a
            &&& a < h0.pages[k].addr + PAGE_HEADER_SIZE + PAGE_DATA_SIZE
        }),
{
    let k = first_open_page(h0.pages);
    let p = h0.pages[k];
    assert(k < h0.pages.len());
    lemma_slot_in_page(p);
}

/// A list that has just been given a page of its small size class has a free
/// block: `take_slot` on it hands out an address.
pub proof fn lemma_reserved_page_is_open(h0: PageListView, h1: PageListView, h2: PageListView, r: Option<usize>)
    requires
        small_list_wf(h0),
        h1.size_class == h0.size_class,
        h1.pages.len() == h0.pages.len() + 1,
        h1.pages.drop_last() == h0.pages,
        fresh_page(h1.pages.last(), h1.pages.last().addr, h0.size_class),
        took_slot(h1, h2, r),
    ensures
        r is Some,
{
    let pred = |p: MyPage| page_is_open(p);
    let last = h1.pages.len() - 1;
    cal_tools::lemma_empty_free_list(h1.pages[last].free_list@, h1.pages[last].size_class);
    assert(pred(h1.pages[last]));
    lemma_first_index_props(h1.pages, pred, 0);
}

/// `release_slot` undoes `take_slot`: giving back the address just handed out
/// succeeds and restores the list, provided the pages do not overlap.
pub proof fn lemma_release_undoes_take(
    h0: PageListView,
    h1: PageListView,
    a: usize,
    h2: PageListView,
    ok: bool,
)
    requires
        small_list_wf(h0),
        pages_disjoint(h0.pages),
        took_slot(h0, h1, Some(a)),
        released(h1, h2, a, ok),
    ensures
        ok,
        h2 == h0,
{
    lemma_taken_block_is_release_target(h0, h1, a);
    let k = first_open_page(h0.pages);
    let p = h0.pages[k];
    lemma_slot_in_page(p);
    if let Ok((pos, t)) = page_slot(p) {
        assert(release_target(h1, a) == Some::<(int, usize, u64)>((k, pos, t)));
        assert(h1.pages[k].free_list@[pos as int] == p.free_list@[pos as int] + t);
    }
    assert(h2.pages[k].free_list@ =~= p.free_list@);
    assert(h2.pages[k].free_list =~= p.free_list);
    assert(h2.pages[k] == p);
    assert(h2.pages =~= h0.pages);
}

/// The block that `take_slot` took is the one that `release_slot` clears for
/// the address it handed out, under the conditions of
/// `lemma_release_undoes_take`.
pub proof fn lemma_taken_block_is_release_target(h0: PageListView, h1: PageListView, a: usize)
    requires
        small_list_wf(h0),
        pages_disjoint(h0.pages),
        took_slot(h0, h1, Some(a)),
    ensures
        ({
            let k = first_open_page(h0.pages);
            &&& 0 <= k < h0.pages.len()
            &&& match page_slot(h0.pages[k]) {
                Ok((pos, t)) => release_target(h1, a) == Some::<(int, usize, u64)>((k, pos, t)),
                Err(_) => false,
            }
        }),
{
    let k = first_open_page(h0.pages);
    let p = h0.pages[k];
    let sc = h0.size_class;
    lemma_slot_in_page(p);
    let s = cal_tools::first_free(p.free_list@, cal_tools::slot_count(sc));
    let pos = s / 64;
    let t = cal_tools::slot_position(s).1;
    assert(a == p.addr + PAGE_HEADER_SIZE + s * sc);
    // the page of the block is the first that holds `a`
    let hold = |q: MyPage| page_holds(q, a);
    assert forall|j: int| 0 <= j < k implies !hold(#[trigger] h1.pages[j]) by {
        assert(h1.pages[j] == h0.pages[j]);
        assert(h0.pages[j].addr + PAGE_HEADER_SIZE + PAGE_DATA_SIZE <= p.addr
            || p.addr + PAGE_HEADER_SIZE + PAGE_DATA_SIZE <= h0.pages[j].addr);
    }
    assert(hold(h1.pages[k]));
    lemma_first_index_at(h1.pages, hold, 0, k);
    // the offset of `a` divided by the size class is the slot of the block
    let off = a - (p.addr + PAGE_HEADER_SIZE);
    assert(off == s * sc);
    assert((s * sc) / (sc as int) == s) by (nonlinear_arith)
        requires
            sc > 0,
            0 <= s,
    ;
    assert(off / (sc as int) == s);
    assert(release_target(h1, a) == Some::<(int, usize, u64)>((k, pos as usize, t)));
}

/// `take_slot` keeps a list well formed and its pages apart.
pub proof fn lemma_took_slot_keeps_wf(h0: PageListView, h1: PageListView, r: Option<usize>)
    requires
        small_list_wf(h0),
        took_slot(h0, h1, r),
    ensures
        small_list_wf(h1),
        pages_disjoint(h0.pages) ==> pages_disjoint(h1.pages),
        h1.pages.len() == h0.pages.len(),
        forall|j: int| 0 <= j < h1.pages.len() ==> (#[trigger] h1.pages[j]).addr == h0.pages[j].addr
            && h1.pages[j].size_class == h0.pages[j].size_class,
{
    lemma_first_open_page(h0.pages);
    assert forall|j: int| 0 <= j < h1.pages.len() implies (#[trigger] h1.pages[j]).addr == h0.pages[j].addr
        && h1.pages[j].size_class == h0.pages[j].size_class by {
    }
}

/// `release_slot` moves no page: every page keeps its start and its size
/// class.
pub proof fn lemma_released_keeps_places(h0: PageListView, h1: PageListView, addr: usize, ok: bool)
    requires
        released(h0, h1, addr, ok),
    ensures
        h1.pages.len() == h0.pages.len(),
        forall|j: int| 0 <= j < h1.pages.len() ==> (#[trigger] h1.pages[j]).addr == h0.pages[j].addr
            && h1.pages[j].size_class == h0.pages[j].size_class,
{
}

/// A block handed out is not handed out again before it is given back: two
/// calls of `take_slot` in a row hand out different addresses, provided the
/// pages do not overlap.
pub proof fn lemma_take_twice_distinct(
    h0: PageListView,
    h1: PageListView,
    a: usize,
    h2: PageListView,
    b: usize,
)
    requires
        small_list_wf(h0),
        pages_disjoint(h0.pages),
        took_slot(h0, h1, Some(a)),
        took_slot(h1, h2, Some(b)),
    ensures
        a != b,
{
    lemma_took_slot_keeps_wf(h0, h1, Some(a));
    lemma_first_open_page(h0.pages);
    lemma_first_open_page(h1.pages);
    let sc = h0.size_class;
    let k1 = first_open_page(h0.pages);
    let k2 = first_open_page(h1.pages);
    let p1 = h0.pages[k1];
    let p2 = h1.pages[k2];
    lemma_taken_address_in_page(h0, h1, a);
    lemma_taken_address_in_page(h1, h2, b);
    if k1 != k2 {
        assert(p2.addr == h0.pages[k2].addr);
        assert(h0.pages[k1].addr + PAGE_HEADER_SIZE + PAGE_DATA_SIZE <= h0.pages[k2].addr
            || h0.pages[k2].addr + PAGE_HEADER_SIZE + PAGE_DATA_SIZE <= h0.pages[k1].addr);
    } else {
        lemma_slot_in_page(p1);
        lemma_slot_in_page(p2);
        let cap = cal_tools::slot_count(sc);
        let s1 = cal_tools::first_free(p1.free_list@, cap);
        let s2 = cal_tools::first_free(p2.free_list@, cap);
        let pos = s1 / 64;
        let bit = (s1 % 64) as u64;
        let t = cal_tools::slot_position(s1).1;
        let w = p1.free_list@[pos];
        let w2 = p2.free_list@[pos];
        let ppos = cal_tools::slot_position(s1).0;
        assert(ppos as int == pos);
        assert(page_slot(p1) == Ok::<(usize, u64), ()>((ppos, t)));
        assert(a == slot_address(p1, ppos, t) as usize);
        assert(h1.pages[k1].free_list@ == p1.free_list@.update(ppos as int, (w + t) as u64));
        assert(w2 == w + t);
        let s2pos = cal_tools::slot_position(s2).0;
        let t2 = cal_tools::slot_position(s2).1;
        assert(page_slot(p2) == Ok::<(usize, u64), ()>((s2pos, t2)));
        assert(b == slot_address(p2, s2pos, t2) as usize);
        assert(!((w >> bit) & 1u64 == 1u64));
        assert((w2 >> bit) & 1u64 == 1u64) by (bit_vector)
            requires
                bit < 64,
                t == 1u64 << bit,
                w2 == w + t,
                !((w >> bit) & 1u64 == 1u64),
        ;
        assert(cal_tools::slot_used(p2.free_list@, s1));
        assert(s1 != s2);
        assert(a == p1.addr + PAGE_HEADER_SIZE + s1 * sc);
        assert(b == p1.addr + PAGE_HEADER_SIZE + s2 * sc);
        assert(s1 * sc != s2 * sc) by (nonlinear_arith)
            requires
                s1 != s2,
                sc > 0,
        ;
    }
}

/// Whether no two pages of a list start at the same address.
pub open spec fn starts_distinct(pages: Seq<MyPage>) -> bool {
    forall|i: int, j: int|
        0 <= i < pages.len() && 0 <= j < pages.len() && i != j ==> #[trigger] pages[i].addr
            != #[trigger] pages[j].addr
}

/// Where page `k` is the only page of a list that starts where it does, it is
/// the first page whose data starts at the address of its data.
pub proof fn lemma_first_page_at(pages: Seq<MyPage>, k: int, addr: usize)
    requires
        0 <= k < pages.len(),
        addr == pages[k].addr + PAGE_HEADER_SIZE,
        forall|j: int| 0 <= j < pages.len() && j != k ==> (#[trigger] pages[j]).addr != pages[k].addr,
    ensures
        first_page_at(pages, addr) == k,
{
    let pred = |p: MyPage| p.addr + PAGE_HEADER_SIZE == addr;
    assert forall|j: int| 0 <= j < k implies !pred(#[trigger] pages[j]) by {
    }
    lemma_first_index_at(pages, pred, 0, k);
}

/// In a list of pages that do not overlap, the page whose data holds `addr`
/// before its end is the first page that holds `addr`.
pub proof fn lemma_first_holding_page(pages: Seq<MyPage>, k: int, addr: usize)
    requires
        pages_disjoint(pages),
        0 <= k < pages.len(),
        pages[k].addr + PAGE_HEADER_SIZE <= addr < pages[k].addr + PAGE_HEADER_SIZE + PAGE_DATA_SIZE,
    ensures
        first_holding_page(pages, addr) == k,
{
    let hold = |q: MyPage| page_holds(q, addr);
    assert forall|j: int| 0 <= j < k implies !hold(#[trigger] pages[j]) by {
        assert(pages[j].addr + PAGE_HEADER_SIZE + PAGE_DATA_SIZE <= pages[k].addr
            || pages[k].addr + PAGE_HEADER_SIZE + PAGE_DATA_SIZE <= pages[j].addr);
    }
    lemma_first_index_at(pages, hold, 0, k);
}

/// `first_page_at` is an index of the list or its length.
pub proof fn lemma_first_page_at_bounds(pages: Seq<MyPage>, addr: usize)
    ensures
        0 <= first_page_at(pages, addr) <= pages.len(),
{
    lemma_first_index_props(pages, |p: MyPage| p.addr + PAGE_HEADER_SIZE == addr, 0);
}

/// `remove_large` gives back the page that holds a large block: for a list
/// of pages that start at distinct addresses, giving back the address of the
/// data of page `k` takes out exactly that page, keeps the others in order,
/// and names that page.
pub proof fn lemma_remove_large_finds_page(h0: PageListView, k: int, h1: PageListView, r: Option<usize>)
    requires
        0 <= k < h0.pages.len(),
        starts_distinct(h0.pages),
        h0.pages[k].addr + PAGE_HEADER_SIZE <= usize::MAX,
        removed_large(h0, h1, (h0.pages[k].addr + PAGE_HEADER_SIZE) as usize, r),
    ensures
        r == Some(h0.pages[k].addr),
        h1.pages == h0.pages.remove(k),
{
    assert forall|j: int| 0 <= j < h0.pages.len() && j != k implies (#[trigger] h0.pages[j]).addr
        != h0.pages[k].addr by {
    }
    lemma_first_page_at(h0.pages, k, (h0.pages[k].addr + PAGE_HEADER_SIZE) as usize);
}

proof fn lemma_first_index_props<A>(s: Seq<A>, pred: spec_fn(A) -> bool, from: int)
    requires
        0 <= from <= s.len(),
    ensures
        from <= first_index_from(s, pred, from) <= s.len(),
        first_index_from(s, pred, from) < s.len() ==> pred(s[first_index_from(s, pred, from)]),
        forall|j: int| from <= j < first_index_from(s, pred, from) ==> !pred(#[trigger] s[j]),
    decreases s.len() - from,
{
    if from < s.len() {
        lemma_first_index_props(s, pred, from + 1);
    }
}

/// Every page of a list is full, slot by slot, exactly when `all_pages_full`
/// holds, for a list of a small size class.
pub proof fn lemma_all_pages_full_means_every_slot_taken(h: PageListView)
    requires
        small_list_wf(h),
    ensures
        all_pages_full(h.pages) == (forall|j: int, q: int|
            0 <= j < h.pages.len() && 0 <= q < cal_tools::slot_count(h.size_class)
                ==> #[trigger] cal_tools::slot_used(h.pages[j].free_list@, q)),
{
    if all_pages_full(h.pages) {
        assert forall|j: int, q: int|
            0 <= j < h.pages.len() && 0 <= q < cal_tools::slot_count(h.size_class) implies #[trigger] cal_tools::slot_used(h.pages[j].free_list@, q) by {
            assert(!page_is_open(h.pages[j]));
            cal_tools::lemma_cal_position_err_iff_full(h.pages[j].free_list@, h.size_class);
        }
    } else {
        let j = choose|j: int| 0 <= j < h.pages.len() && page_is_open(#[trigger] h.pages[j]);
        cal_tools::lemma_cal_position_err_iff_full(h.pages[j].free_list@, h.size_class);
    }
}

/// `take_slot` hands out nothing only when no slot of any page of the list is
/// free.
pub proof fn lemma_take_slot_none_means_full(h0: PageListView, h1: PageListView)
    requires
        small_list_wf(h0),
        took_slot(h0, h1, None),
    ensures
        forall|j: int, q: int|
            0 <= j < h0.pages.len() && 0 <= q < cal_tools::slot_count(h0.size_class)
                ==> #[trigger] cal_tools::slot_used(h0.pages[j].free_list@, q),
        h1.pages == h0.pages,
{
    lemma_first_open_page(h0.pages);
    lemma_all_pages_full_means_every_slot_taken(h0);
}

/// `take_slot` is first fit: the block it takes is the lowest free slot of
/// its page, every page before that page has no free slot, and the address is
/// the page's data start plus the slot times the block size.
pub proof fn lemma_take_slot_first_fit(h0: PageListView, h1: PageListView, a: usize)
    requires
        small_list_wf(h0),
        took_slot(h0, h1, Some(a)),
    ensures
        exists|k: int, s: int|
            #![trigger h0.pages[k], cal_tools::slot_used(h0.pages[k].free_list@, s)]
            {
                &&& 0 <= k < h0.pages.len()
                &&& 0 <= s < cal_tools::slot_count(h0.size_class)
                &&& !cal_tools::slot_used(h0.pages[k].free_list@, s)
                &&& (forall|q: int| 0 <= q < s ==> cal_tools::slot_used(h0.pages[k].free_list@, q))
                &&& (forall|j: int, q: int|
                    0 <= j < k && 0 <= q < cal_tools::slot_count(h0.size_class)
                        ==> #[trigger] cal_tools::slot_used(h0.pages[j].free_list@, q))
                &&& a == h0.pages[k].addr + PAGE_HEADER_SIZE + s * h0.size_class
                &&& cal_tools::slot_used(h1.pages[k].free_list@, s)
            },
{
    lemma_first_open_page(h0.pages);
    let k = first_open_page(h0.pages);
    let p = h0.pages[k];
    lemma_slot_in_page(p);
    let s = cal_tools::first_free(p.free_list@, cal_tools::slot_count(p.size_class));
    let pred = |q: MyPage| page_is_open(q);
    lemma_first_index_props(h0.pages, pred, 0);
    assert forall|j: int, q: int|
        0 <= j < k && 0 <= q < cal_tools::slot_count(h0.size_class) implies #[trigger] cal_tools::slot_used(h0.pages[j].free_list@, q) by {
        assert(!pred(h0.pages[j]));
        cal_tools::lemma_cal_position_err_iff_full(h0.pages[j].free_list@, h0.size_class);
    }
    cal_tools::lemma_found_slot(p.free_list@, p.size_class);
    let pos = s / 64;
    let b = (s % 64) as u64;
    let t = 1u64 << b;
    let w = p.free_list@[pos];
    let w2 = h1.pages[k].free_list@[pos];
    assert(page_slot(p) == Ok::<(usize, u64), ()>((pos as usize, t)));
    assert(w2 == w + t);
    assert((w2 >> b) & 1u64 == 1u64) by (bit_vector)
        requires
            b < 64,
            t == 1u64 << b,
            w2 == w + t,
            !((w >> b) & 1u64 == 1u64),
    ;
    assert(cal_tools::slot_used(h1.pages[k].free_list@, s));
    assert(h0.pages[k] == p);
}

} // verus!
