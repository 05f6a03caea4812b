//! Physical frames and page tables: a frame allocator with a recycling
//! stack, page-table models keyed by page number, and the invariant that
//! every live mapping references a frame that is neither unissued nor
//! recycled.

use vstd::prelude::*;
use vstd::seq_lib::*;
use vstd::set_lib::*;

verus! {

/// Errors while mapping pages.
#[derive(Debug, Clone, Copy, PartialEq, Eq, Structural)]
pub enum MapError {
    PageAlreadyMapped,
    FrameAllocationFailed,
}

/// Errors while unmapping pages.
#[derive(Debug, Clone, Copy, PartialEq, Eq, Structural)]
pub enum UnmapError {
    PageNotMapped,
}

/// Hands out 4 KiB physical frames: recycled frames first, then a cursor
/// over the never-issued range.
pub struct FrameAllocator {
    start: u64,
    next: u64,
    end: u64,
    recycled: Vec<u64>,
    used: u64,
    recycled_count: u64,
}

impl FrameAllocator {
    pub closed spec fn spec_start(&self) -> u64 {
        self.start
    }

    pub closed spec fn spec_next(&self) -> u64 {
        self.next
    }

    pub closed spec fn spec_end(&self) -> u64 {
        self.end
    }

    pub closed spec fn spec_recycled(&self) -> Seq<u64> {
        self.recycled@
    }

    /// How many frames were ever handed out.
    pub closed spec fn spec_used(&self) -> u64 {
        self.used
    }

    /// How many frames were ever given back.
    pub closed spec fn spec_recycled_count(&self) -> u64 {
        self.recycled_count
    }

    /// A frame that has been handed out and not given back.
    pub open spec fn spec_is_live(&self, f: u64) -> bool {
        self.spec_start() <= f < self.spec_next() && !self.spec_recycled().contains(f)
    }

    /// The zero frame is never managed, the cursor stays within the range,
    /// the recycling stack holds distinct issued frames, and the counters
    /// balance the live frames.
    pub open spec fn wf(&self) -> bool {
        &&& 1 <= self.spec_start() <= self.spec_next() <= self.spec_end()
        &&& self.spec_recycled().no_duplicates()
        &&& forall|i: int|
            0 <= i < self.spec_recycled().len() ==> self.spec_start() <= (
            #[trigger] self.spec_recycled()[i]) < self.spec_next()
        &&& self.spec_used() == self.spec_recycled_count() + (self.spec_next()
            - self.spec_start()) - self.spec_recycled().len()
    }

    /// An allocator over the physical frames `start..end`; the zero frame
    /// is left out.
    pub fn new(start: u64, end: u64) -> (r: FrameAllocator)
        requires
            1 <= start <= end,
        ensures
            r.wf(),
            r.spec_start() == start,
            r.spec_next() == start,
            r.spec_end() == end,
            r.spec_used() == 0,
            r.spec_recycled_count() == 0,
            r.spec_recycled().len() == 0,
    {
        FrameAllocator { start, next: start, end, recycled: Vec::new(), used: 0, recycled_count: 0 }
    }

    pub fn frames_used(&self) -> (r: u64)
        ensures
            r == self.spec_used(),
    {
        self.used
    }

    pub fn frames_recycled_count(&self) -> (r: u64)
        ensures
            r == self.spec_recycled_count(),
    {
        self.recycled_count
    }

    pub fn frames_total(&self) -> (r: u64)
        requires
            self.wf(),
        ensures
            r == self.spec_end() - self.spec_start(),
    {
        self.end - self.start
    }

    /// The number of frames still available.
    pub fn free_frames(&self) -> (r: u64)
        requires
            self.wf(),
            self.spec_recycled().len() + (self.spec_end() - self.spec_next()) <= u64::MAX,
        ensures
            r == self.spec_recycled().len() + (self.spec_end() - self.spec_next()),
    {
        (self.end - self.next) + self.recycled.len() as u64
    }

    /// Hands out a frame: the most recently recycled one first, else the
    /// cursor advances; `None` when nothing is left.
    pub fn allocate(&mut self) -> (r: Option<u64>)
        requires
            old(self).wf(),
            old(self).spec_used() < u64::MAX,
        ensures
            final(self).wf(),
            final(self).spec_start() == old(self).spec_start(),
            final(self).spec_end() == old(self).spec_end(),
            final(self).spec_recycled_count() == old(self).spec_recycled_count(),
            match r {
                Some(f) => {
                    &&& final(self).spec_used() == old(self).spec_used() + 1
                    &&& final(self).spec_is_live(f)
                    &&& !old(self).spec_is_live(f)
                    &&& (forall|g: u64| old(self).spec_is_live(g) ==> final(self).spec_is_live(g))
                    &&& (forall|g: u64|
                        final(self).spec_is_live(g) ==> g == f || old(self).spec_is_live(g))
                    &&& if old(self).spec_recycled().len() > 0 {
                        f == old(self).spec_recycled().last() && final(self).spec_recycled()
                            == old(self).spec_recycled().drop_last() && final(self).spec_next()
                            == old(self).spec_next()
                    } else {
                        f == old(self).spec_next() && final(self).spec_next() == old(
                            self,
                        ).spec_next() + 1 && final(self).spec_recycled() == old(
                            self,
                        ).spec_recycled()
                    }
                },
                None => *final(self) == *old(self) && old(self).spec_recycled().len() == 0 && old(
                    self,
                ).spec_next() == old(self).spec_end(),
            },
    {
        let ghost pre = *self;
        if self.recycled.len() == 0 {
            if self.next < self.end {
                let f = self.next;
                self.next = self.next + 1;
                self.used = self.used + 1;
                return Some(f);
            }
            return None;
        }
        let popped = self.recycled.pop();
        match popped {
            Some(f) => {
                self.used = self.used + 1;
                proof {
                    assert(pre.spec_recycled().drop_last() =~= self.recycled@);
                    assert(pre.spec_recycled()[pre.spec_recycled().len() - 1] == f);
                    assert(pre.spec_recycled().contains(f));
                    assert(self.recycled@.no_duplicates()) by {
                        assert forall|i: int, j: int|
                            0 <= i < j < self.recycled@.len() implies self.recycled@[i]
                            != self.recycled@[j] by {
                            assert(self.recycled@[i] == pre.spec_recycled()[i]);
                            assert(self.recycled@[j] == pre.spec_recycled()[j]);
                        }
                    }
                    assert(!self.recycled@.contains(f)) by {
                        if self.recycled@.contains(f) {
                            let i = choose|i: int|
                                0 <= i < self.recycled@.len() && self.recycled@[i] == f;
                            assert(pre.spec_recycled()[i] == f);
                            assert(pre.spec_recycled().last() == f);
                        }
                    }
                    assert forall|g: u64| pre.spec_is_live(g) implies self.spec_is_live(g) by {
                        if self.recycled@.contains(g) {
                            let i = choose|i: int|
                                0 <= i < self.recycled@.len() && self.recycled@[i] == g;
                            assert(pre.spec_recycled()[i] == g);
                        }
                    }
                    assert forall|g: u64|
                        self.spec_is_live(g) && g != f implies pre.spec_is_live(g) by {
                        if pre.spec_recycled().contains(g) {
                            let i = choose|i: int|
                                0 <= i < pre.spec_recycled().len() && pre.spec_recycled()[i] == g;
                            if i < pre.spec_recycled().len() - 1 {
                                assert(self.recycled@[i] == g);
                            }
                        }
                    }
                }
                Some(f)
            },
            None => {
                proof {
                    assert(false);
                }
                None
            },
        }
    }

    /// Takes a frame back: a frame that was never handed out, or is already
    /// on the recycling stack, is refused.
    pub fn deallocate(&mut self, f: u64) -> (r: bool)
        requires
            old(self).wf(),
            old(self).spec_recycled_count() < u64::MAX,
        ensures
            final(self).wf(),
            r == old(self).spec_is_live(f),
            final(self).spec_start() == old(self).spec_start(),
            final(self).spec_end() == old(self).spec_end(),
            final(self).spec_next() == old(self).spec_next(),
            final(self).spec_used() == old(self).spec_used(),
            r ==> final(self).spec_recycled() == old(self).spec_recycled().push(f),
            r ==> final(self).spec_recycled_count() == old(self).spec_recycled_count() + 1,
            !r ==> *final(self) == *old(self),
            forall|g: u64| final(self).spec_is_live(g) <==> (old(self).spec_is_live(g) && g != f),
    {
        let ghost pre = *self;
        if !(self.start <= f && f < self.next) {
            proof {
                assert forall|g: u64|
                    self.spec_is_live(g) <==> (pre.spec_is_live(g) && g != f) by {}
            }
            return false;
        }
        if self.contains_recycled(f) {
            return false;
        }
        self.recycled.push(f);
        self.recycled_count = self.recycled_count + 1;
        proof {
            assert(self.recycled@ == pre.spec_recycled().push(f));
            assert forall|g: u64| self.spec_is_live(g) implies (pre.spec_is_live(g) && g != f) by {
                if pre.spec_recycled().contains(g) {
                    let i = choose|i: int|
                        0 <= i < pre.spec_recycled().len() && pre.spec_recycled()[i] == g;
                    assert(self.recycled@[i] == g);
                }
                assert(self.recycled@.last() == f);
            }
            assert forall|g: u64| (pre.spec_is_live(g) && g != f) implies self.spec_is_live(g) by {
                if self.recycled@.contains(g) {
                    let i = choose|i: int|
                        0 <= i < self.recycled@.len() && self.recycled@[i] == g;
                    if i < pre.spec_recycled().len() {
                        assert(pre.spec_recycled()[i] == g);
                    }
                }
            }
        }
        true
    }

    /// Whether `f` sits on the recycling stack.
    fn contains_recycled(&self, f: u64) -> (r: bool)
        ensures
            r == self.spec_recycled().contains(f),
    {
        let n = self.recycled.len();
        let mut i: usize = 0;
        while i < n
            invariant
                i <= n == self.spec_recycled().len(),
                forall|j: int| 0 <= j < i ==> self.spec_recycled()[j] != f,
            decreases n - i,
        {
            if self.recycled[i] == f {
                return true;
            }
            i = i + 1;
        }
        false
    }
}

/// A sequence of distinct values drawn from `lo..hi` cannot outnumber the
/// range.
proof fn lemma_distinct_in_range(s: Seq<u64>, lo: int, hi: int)
    requires
        s.no_duplicates(),
        forall|i: int| 0 <= i < s.len() ==> lo <= #[trigger] s[i] < hi,
        lo <= hi,
    ensures
        s.len() <= hi - lo,
{
    let si = s.map_values(|x: u64| x as int);
    assert(si.no_duplicates()) by {
        assert forall|i: int, j: int| 0 <= i < j < si.len() implies si[i] != si[j] by {
            assert(s[i] != s[j]);
        }
    }
    si.unique_seq_to_set();
    let range = set_int_range(lo, hi);
    lemma_int_range(lo, hi);
    assert(si.to_set().subset_of(range)) by {
        assert forall|x: int| si.to_set().contains(x) implies range.contains(x) by {
            assert(si.contains(x));
            let i = choose|i: int| 0 <= i < si.len() && si[i] == x;
            assert(s[i] as int == x);
        }
    }
    lemma_len_subset(si.to_set(), range);
}

/// The allocator never recycles more than it hands out: the counters of a
/// well-formed allocator satisfy `frames_used >= frames_recycled`.
pub proof fn lemma_used_ge_recycled(a: &FrameAllocator)
    requires
        a.wf(),
    ensures
        a.spec_used() >= a.spec_recycled_count(),
{
    lemma_distinct_in_range(
        a.spec_recycled(),
        a.spec_start() as int,
        a.spec_next() as int,
    );
}

/// One page-to-frame mapping.
#[derive(Debug, Clone, Copy, PartialEq, Eq, Structural)]
pub struct MapEntry {
    pub page: u64,
    pub frame: u64,
    pub user: bool,
    pub writable: bool,
}

/// A page table: the mappings of one address space.
pub struct PageTable {
    entries: Vec<MapEntry>,
}

/// The index of `page` among `entries`, from `i` on.
pub open spec fn spec_page_index(entries: Seq<MapEntry>, i: int, page: u64) -> Option<int>
    decreases entries.len() - i,
{
    if i < 0 || i >= entries.len() {
        None
    } else if entries[i].page == page {
        Some(i)
    } else {
        spec_page_index(entries, i + 1, page)
    }
}

impl PageTable {
    pub closed spec fn view(&self) -> Seq<MapEntry> {
        self.entries@
    }

    pub open spec fn spec_index_of(&self, page: u64) -> Option<int> {
        spec_page_index(self@, 0, page)
    }

    pub open spec fn spec_mapped(&self, page: u64) -> bool {
        self.spec_index_of(page) is Some
    }

    /// The mapping of `page`, when it is mapped.
    pub open spec fn spec_entry_of(&self, page: u64) -> MapEntry
        recommends
            self.spec_mapped(page),
    {
        self@[self.spec_index_of(page)->Some_0]
    }

    /// Pages are mapped at most once.
    pub open spec fn wf(&self) -> bool {
        forall|i: int, j: int|
            0 <= i < j < self@.len() ==> (#[trigger] self@[i].page) != (#[trigger] self@[j].page)
    }

    pub fn new() -> (r: PageTable)
        ensures
            r.wf(),
            r@.len() == 0,
    {
        PageTable { entries: Vec::new() }
    }

    /// Finds the position of `page`.
    fn index_of(&self, page: u64) -> (r: Option<usize>)
        ensures
            match r {
                Some(i) => self.spec_index_of(page) == Some(i as int) && i < self@.len() && self@[
                    i as int].page == page,
                None => self.spec_index_of(page) is None,
            },
    {
        let n = self.entries.len();
        let mut i: usize = 0;
        while i < n
            invariant
                i <= n == self@.len(),
                spec_page_index(self@, 0, page) == spec_page_index(self@, i as int, page),
            decreases n - i,
        {
            if self.entries[i].page == page {
                return Some(i);
            }
            i = i + 1;
        }
        None
    }

    /// The frame that `page` maps to, if any.
    pub fn translate(&self, page: u64) -> (r: Option<u64>)
        ensures
            match r {
                Some(f) => self.spec_mapped(page) && f == self.spec_entry_of(page).frame,
                None => !self.spec_mapped(page),
            },
    {
        match self.index_of(page) {
            Some(i) => Some(self.entries[i].frame),
            None => None,
        }
    }
}

impl PageTable {
    /// Inserts a mapping for a page that is not mapped yet.
    fn insert_entry(&mut self, e: MapEntry)
        requires
            old(self).wf(),
            !old(self).spec_mapped(e.page),
        ensures
            final(self).wf(),
            final(self)@ == old(self)@.push(e),
    {
        proof {
            lemma_page_index_none_means_absent(self@, e.page);
        }
        self.entries.push(e);
        proof {
            let ghost post = self@;
            assert forall|i: int, j: int| 0 <= i < j < post.len() implies (
            #[trigger] post[i].page) != (#[trigger] post[j].page) by {
                if j < post.len() - 1 {
                    assert(post[i] == old(self)@[i] && post[j] == old(self)@[j]);
                } else {
                    assert(post[i] == old(self)@[i]);
                }
            }
        }
    }

    /// Removes the mapping of `page`, handing the entry back.
    fn remove_page(&mut self, page: u64) -> (r: Option<MapEntry>)
        requires
            old(self).wf(),
        ensures
            final(self).wf(),
            match r {
                Some(e) => {
                    &&& old(self).spec_mapped(page)
                    &&& e.page == page
                    &&& e == old(self).spec_entry_of(page)
                    &&& final(self)@ == old(self)@.remove(old(self).spec_index_of(page)->Some_0)
                },
                None => !old(self).spec_mapped(page) && final(self)@ == old(self)@,
            },
    {
        match self.index_of(page) {
            Some(i) => {
                let e = self.entries.remove(i);
                proof {
                    let pre = old(self)@;
                    let post = self@;
                    assert forall|a: int, b: int| 0 <= a < b < post.len() implies (
                    #[trigger] post[a].page) != (#[trigger] post[b].page) by {
                        let oa = if a < i {
                            a
                        } else {
                            a + 1
                        };
                        let ob = if b < i {
                            b
                        } else {
                            b + 1
                        };
                        assert(post[a] == pre[oa] && post[b] == pre[ob]);
                    }
                }
                Some(e)
            },
            None => None,
        }
    }
}

/// The scan's result points at a matching entry, and nothing before it
/// matches.
proof fn lemma_page_index_props(entries: Seq<MapEntry>, i0: int, page: u64)
    requires
        0 <= i0 <= entries.len(),
    ensures
        match spec_page_index(entries, i0, page) {
            Some(i) => i0 <= i < entries.len() && entries[i].page == page && forall|j: int|
                i0 <= j < i ==> (#[trigger] entries[j].page) != page,
            None => forall|j: int| i0 <= j < entries.len() ==> (#[trigger] entries[j].page) != page,
        },
    decreases entries.len() - i0,
{
    if i0 < entries.len() && entries[i0].page != page {
        lemma_page_index_props(entries, i0 + 1, page);
    }
}

/// A scan that sees no entry for `q` before `d`, and one at `d` unless `d`
/// is the length, resolves accordingly.
proof fn lemma_page_index_char_from(s: Seq<MapEntry>, i: int, d: int, q: u64)
    requires
        0 <= i <= d <= s.len(),
        forall|j: int| i <= j < d ==> (#[trigger] s[j].page) != q,
        d < s.len() ==> s[d].page == q,
    ensures
        spec_page_index(s, i, q) == if d == s.len() {
            None
        } else {
            Some(d)
        },
    decreases d - i,
{
    if i < d {
        lemma_page_index_char_from(s, i + 1, d, q);
    }
}

/// In a table with distinct pages, any entry holding `q` is the one the
/// scan finds.
proof fn lemma_entry_unique(entries: Seq<MapEntry>, q: u64, j: int)
    requires
        forall|a: int, b: int|
            0 <= a < b < entries.len() ==> (#[trigger] entries[a].page) != (
            #[trigger] entries[b].page),
        0 <= j < entries.len(),
        entries[j].page == q,
    ensures
        spec_page_index(entries, 0, q) == Some(j),
{
    lemma_page_index_finds(entries, 0, q);
    lemma_page_index_props(entries, 0, q);
    let i = spec_page_index(entries, 0, q)->Some_0;
    if i < j {
        assert(entries[i].page != entries[j].page);
    } else if j < i {
        assert(entries[j].page != page_of(entries, i));
    }
}

spec fn page_of(entries: Seq<MapEntry>, i: int) -> u64 {
    entries[i].page
}

/// Removing one entry of a distinct-paged table leaves every other page's
/// mapping as it was.
proof fn lemma_remove_preserves_others(pre: Seq<MapEntry>, i: int, q: u64)
    requires
        forall|a: int, b: int|
            0 <= a < b < pre.len() ==> (#[trigger] pre[a].page) != (#[trigger] pre[b].page),
        0 <= i < pre.len(),
        q != pre[i].page,
    ensures
        ({
            let post = pre.remove(i);
            &&& (spec_page_index(post, 0, q) is Some <==> spec_page_index(pre, 0, q) is Some)
            &&& (spec_page_index(pre, 0, q) matches Some(k) ==> post[spec_page_index(
                post,
                0,
                q,
            )->Some_0] == pre[k])
        }),
{
    let post = pre.remove(i);
    assert forall|a: int, b: int| 0 <= a < b < post.len() implies (#[trigger] post[a].page) != (
    #[trigger] post[b].page) by {
        let oa = if a < i {
            a
        } else {
            a + 1
        };
        let ob = if b < i {
            b
        } else {
            b + 1
        };
        assert(post[a] == pre[oa] && post[b] == pre[ob]);
    }
    lemma_page_index_props(pre, 0, q);
    match spec_page_index(pre, 0, q) {
        Some(k) => {
            assert(k != i);
            if k < i {
                assert(post[k] == pre[k]);
                lemma_entry_unique(post, q, k);
            } else {
                assert(post[k - 1] == pre[k]);
                lemma_entry_unique(post, q, k - 1);
            }
        },
        None => {
            assert forall|j: int| 0 <= j < post.len() implies (#[trigger] post[j].page) != q by {
                let oj = if j < i {
                    j
                } else {
                    j + 1
                };
                assert(post[j] == pre[oj]);
            }
            lemma_page_index_props(post, 0, q);
            if spec_page_index(post, 0, q) is Some {
                let k = spec_page_index(post, 0, q)->Some_0;
                lemma_page_index_props(post, 0, q);
                assert(false);
            }
        },
    }
}

/// Appending an entry for a fresh page leaves every other page's mapping as
/// it was.
proof fn lemma_append_preserves_others(pre: Seq<MapEntry>, e: MapEntry, q: u64)
    requires
        forall|a: int, b: int|
            0 <= a < b < pre.len() ==> (#[trigger] pre[a].page) != (#[trigger] pre[b].page),
        q != e.page,
    ensures
        ({
            let post = pre.push(e);
            &&& (spec_page_index(post, 0, q) is Some <==> spec_page_index(pre, 0, q) is Some)
            &&& (spec_page_index(pre, 0, q) matches Some(k) ==> post[spec_page_index(
                post,
                0,
                q,
            )->Some_0] == pre[k])
        }),
{
    let post = pre.push(e);
    lemma_page_index_props(pre, 0, q);
    match spec_page_index(pre, 0, q) {
        Some(k) => {
            assert(post[k] == pre[k]);
            lemma_page_index_props(post, 0, q);
            lemma_page_index_finds(post, 0, q);
            let k2 = spec_page_index(post, 0, q)->Some_0;
            if k2 < post.len() - 1 {
                assert(post[k2] == pre[k2]);
                if k2 < k {
                    assert(pre[k2].page != q);
                } else if k < k2 {
                    assert(post[k].page != q);
                }
            } else {
                assert(post[k2] == e);
                assert(false);
            }
        },
        None => {
            assert forall|j: int| 0 <= j < post.len() implies (#[trigger] post[j].page) != q by {
                if j < post.len() - 1 {
                    assert(post[j] == pre[j]);
                } else {
                    assert(post[j] == e);
                }
            }
            lemma_page_index_props(post, 0, q);
            if spec_page_index(post, 0, q) is Some {
                assert(false);
            }
        },
    }
}

/// One address space and the number of processes holding it.
pub struct TableSlot {
    pub refs: usize,
    pub pt: PageTable,
}

/// The frame allocator and every address space, kept together so that the
/// mapping invariant can speak of both.
pub struct MemoryManager {
    alloc: FrameAllocator,
    tables: Vec<TableSlot>,
}

/// The number of frames still available from `a`.
pub open spec fn spec_free(a: FrameAllocator) -> int {
    a.spec_recycled().len() + (a.spec_end() - a.spec_next())
}

/// The entry holding page `p`.
pub open spec fn spec_entry_at(s: Seq<MapEntry>, p: u64) -> MapEntry
    recommends
        spec_page_index(s, 0, p) is Some,
{
    s[spec_page_index(s, 0, p)->Some_0]
}

/// Page `q` maps the same way in `a` and `b`: mapped in one exactly when
/// mapped in the other, and to the same entry.
pub open spec fn spec_same_mapping(a: Seq<MapEntry>, b: Seq<MapEntry>, q: u64) -> bool {
    &&& (spec_page_index(a, 0, q) is Some <==> spec_page_index(b, 0, q) is Some)
    &&& (spec_page_index(a, 0, q) matches Some(k) ==> b[spec_page_index(b, 0, q)->Some_0] == a[k])
}

impl MemoryManager {
    pub closed spec fn spec_alloc(&self) -> FrameAllocator {
        self.alloc
    }

    pub closed spec fn spec_tables(&self) -> Seq<TableSlot> {
        self.tables@
    }

    pub open spec fn spec_pt(&self, id: int) -> Seq<MapEntry>
        recommends
            0 <= id < self.spec_tables().len(),
    {
        self.spec_tables()[id].pt@
    }

    /// The allocator is sound, every table maps pages at most once, every
    /// mapped frame is live — neither unissued nor recycled — and no frame
    /// is mapped twice, in any table.
    pub open spec fn wf(&self) -> bool {
        &&& self.spec_alloc().wf()
        &&& forall|t: int|
            0 <= t < self.spec_tables().len() ==> (#[trigger] self.spec_tables()[t]).pt.wf()
        &&& forall|t: int, i: int|
            0 <= t < self.spec_tables().len() && 0 <= i < self.spec_pt(t).len()
                ==> self.spec_alloc().spec_is_live((#[trigger] self.spec_pt(t)[i]).frame)
        &&& forall|t1: int, i1: int, t2: int, i2: int|
            0 <= t1 < self.spec_tables().len() && 0 <= i1 < self.spec_pt(t1).len() && 0 <= t2
                < self.spec_tables().len() && 0 <= i2 < self.spec_pt(t2).len() && (t1 != t2 || i1
                != i2) ==> (#[trigger] self.spec_pt(t1)[i1]).frame != (
            #[trigger] self.spec_pt(t2)[i2]).frame
    }

    /// A manager over the physical frames `start..end`, with no address
    /// space yet.
    pub fn new(start: u64, end: u64) -> (r: MemoryManager)
        requires
            1 <= start <= end,
        ensures
            r.wf(),
            r.spec_tables().len() == 0,
            r.spec_alloc().spec_used() == 0,
            r.spec_alloc().spec_recycled_count() == 0,
            r.spec_alloc().spec_start() == start,
            r.spec_alloc().spec_end() == end,
    {
        MemoryManager { alloc: FrameAllocator::new(start, end), tables: Vec::new() }
    }

    pub fn frames_used(&self) -> (r: u64)
        ensures
            r == self.spec_alloc().spec_used(),
    {
        self.alloc.frames_used()
    }

    pub fn frames_recycled(&self) -> (r: u64)
        ensures
            r == self.spec_alloc().spec_recycled_count(),
    {
        self.alloc.frames_recycled_count()
    }

    pub fn table_count(&self) -> (r: usize)
        ensures
            r == self.spec_tables().len(),
    {
        self.tables.len()
    }

    pub fn table_refs(&self, id: usize) -> (r: usize)
        requires
            id < self.spec_tables().len(),
        ensures
            r == self.spec_tables()[id as int].refs,
    {
        self.tables[id].refs
    }

    /// A fresh, empty address space held once.
    pub fn new_table(&mut self) -> (id: usize)
        requires
            old(self).wf(),
        ensures
            final(self).wf(),
            final(self).spec_alloc() == old(self).spec_alloc(),
            id == old(self).spec_tables().len(),
            final(self).spec_tables().len() == old(self).spec_tables().len() + 1,
            forall|t: int|
                0 <= t < old(self).spec_tables().len() ==> final(self).spec_tables()[t] == old(
                    self,
                ).spec_tables()[t],
            final(self).spec_tables()[id as int].refs == 1,
            final(self).spec_pt(id as int).len() == 0,
    {
        let id = self.tables.len();
        self.tables.push(TableSlot { refs: 1, pt: PageTable::new() });
        proof {
            assert forall|t: int, i: int|
                0 <= t < self.spec_tables().len() && 0 <= i < self.spec_pt(t).len() implies self
                .spec_alloc().spec_is_live((#[trigger] self.spec_pt(t)[i]).frame) by {
                assert(t < old(self).spec_tables().len());
                assert(self.spec_pt(t) == old(self).spec_pt(t));
            }
            assert forall|t1: int, i1: int, t2: int, i2: int|
                0 <= t1 < self.spec_tables().len() && 0 <= i1 < self.spec_pt(t1).len() && 0 <= t2
                    < self.spec_tables().len() && 0 <= i2 < self.spec_pt(t2).len() && (t1 != t2
                    || i1 != i2) implies (#[trigger] self.spec_pt(t1)[i1]).frame != (
            #[trigger] self.spec_pt(t2)[i2]).frame by {
                assert(t1 < old(self).spec_tables().len() && t2 < old(self).spec_tables().len());
                assert(self.spec_pt(t1) == old(self).spec_pt(t1));
                assert(self.spec_pt(t2) == old(self).spec_pt(t2));
            }
        }
        id
    }

    /// One more process holds the address space.
    pub fn share_table(&mut self, id: usize)
        requires
            old(self).wf(),
            id < old(self).spec_tables().len(),
            old(self).spec_tables()[id as int].refs < usize::MAX,
        ensures
            final(self).wf(),
            final(self).spec_alloc() == old(self).spec_alloc(),
            final(self).spec_tables().len() == old(self).spec_tables().len(),
            forall|t: int|
                0 <= t < old(self).spec_tables().len() && t != id ==> final(self).spec_tables()[t]
                    == old(self).spec_tables()[t],
            final(self).spec_tables()[id as int].refs == old(self).spec_tables()[id as int].refs
                + 1,
            final(self).spec_pt(id as int) == old(self).spec_pt(id as int),
    {
        let slot = &mut self.tables[id];
        slot.refs = slot.refs + 1;
        proof {
            assert forall|t: int, i: int|
                0 <= t < self.spec_tables().len() && 0 <= i < self.spec_pt(t).len() implies self
                .spec_alloc().spec_is_live((#[trigger] self.spec_pt(t)[i]).frame) by {
                assert(self.spec_pt(t) == old(self).spec_pt(t));
            }
            assert forall|t1: int, i1: int, t2: int, i2: int|
                0 <= t1 < self.spec_tables().len() && 0 <= i1 < self.spec_pt(t1).len() && 0 <= t2
                    < self.spec_tables().len() && 0 <= i2 < self.spec_pt(t2).len() && (t1 != t2
                    || i1 != i2) implies (#[trigger] self.spec_pt(t1)[i1]).frame != (
            #[trigger] self.spec_pt(t2)[i2]).frame by {
                assert(self.spec_pt(t1) == old(self).spec_pt(t1));
                assert(self.spec_pt(t2) == old(self).spec_pt(t2));
            }
        }
    }

    /// One process lets go of the address space.
    pub fn release_table(&mut self, id: usize)
        requires
            old(self).wf(),
            id < old(self).spec_tables().len(),
            old(self).spec_tables()[id as int].refs > 0,
        ensures
            final(self).wf(),
            final(self).spec_alloc() == old(self).spec_alloc(),
            final(self).spec_tables().len() == old(self).spec_tables().len(),
            forall|t: int|
                0 <= t < old(self).spec_tables().len() && t != id ==> final(self).spec_tables()[t]
                    == old(self).spec_tables()[t],
            final(self).spec_tables()[id as int].refs == old(self).spec_tables()[id as int].refs
                - 1,
            final(self).spec_pt(id as int) == old(self).spec_pt(id as int),
    {
        let slot = &mut self.tables[id];
        slot.refs = slot.refs - 1;
        proof {
            assert forall|t: int, i: int|
                0 <= t < self.spec_tables().len() && 0 <= i < self.spec_pt(t).len() implies self
                .spec_alloc().spec_is_live((#[trigger] self.spec_pt(t)[i]).frame) by {
                assert(self.spec_pt(t) == old(self).spec_pt(t));
            }
            assert forall|t1: int, i1: int, t2: int, i2: int|
                0 <= t1 < self.spec_tables().len() && 0 <= i1 < self.spec_pt(t1).len() && 0 <= t2
                    < self.spec_tables().len() && 0 <= i2 < self.spec_pt(t2).len() && (t1 != t2
                    || i1 != i2) implies (#[trigger] self.spec_pt(t1)[i1]).frame != (
            #[trigger] self.spec_pt(t2)[i2]).frame by {
                assert(self.spec_pt(t1) == old(self).spec_pt(t1));
                assert(self.spec_pt(t2) == old(self).spec_pt(t2));
            }
        }
    }

    /// Maps the pages `start_page..start_page + count` of address space
    /// `id` to freshly allocated frames with the given access bits. Fails,
    /// changing nothing, when a page of the range is already mapped or when
    /// fewer than `count` frames are available.
    pub fn map_range(
        &mut self,
        id: usize,
        start_page: u64,
        count: usize,
        user: bool,
        writable: bool,
    ) -> (r: Result<(), MapError>)
        requires
            old(self).wf(),
            id < old(self).spec_tables().len(),
            start_page + count <= u64::MAX,
            old(self).spec_alloc().spec_used() + count <= u64::MAX,
        ensures
            final(self).wf(),
            final(self).spec_tables().len() == old(self).spec_tables().len(),
            forall|t: int|
                0 <= t < old(self).spec_tables().len() && t != id ==> final(self).spec_tables()[t]
                    == old(self).spec_tables()[t],
            final(self).spec_tables()[id as int].refs == old(self).spec_tables()[id as int].refs,
            final(self).spec_alloc().spec_start() == old(self).spec_alloc().spec_start(),
            final(self).spec_alloc().spec_end() == old(self).spec_alloc().spec_end(),
            match r {
                Ok(()) => {
                    &&& final(self).spec_alloc().spec_used() == old(self).spec_alloc().spec_used()
                        + count
                    &&& final(self).spec_alloc().spec_recycled_count() == old(
                        self,
                    ).spec_alloc().spec_recycled_count()
                    &&& final(self).spec_pt(id as int).len() == old(self).spec_pt(id as int).len()
                        + count
                    &&& (forall|p: u64|
                        start_page <= p < start_page + count ==> {
                            &&& (#[trigger] spec_page_index(
                                final(self).spec_pt(id as int),
                                0,
                                p,
                            )) is Some
                            &&& spec_entry_at(final(self).spec_pt(id as int), p).user == user
                            &&& spec_entry_at(final(self).spec_pt(id as int), p).writable
                                == writable
                        })
                    &&& (forall|q: u64|
                        !(start_page <= q < start_page + count) ==> spec_same_mapping(
                            old(self).spec_pt(id as int),
                            final(self).spec_pt(id as int),
                            q,
                        ))
                },
                Err(MapError::PageAlreadyMapped) => *final(self) == *old(self) && (exists|p: u64|
                    start_page <= p < start_page + count && spec_page_index(
                        old(self).spec_pt(id as int),
                        0,
                        p,
                    ) is Some),
                Err(MapError::FrameAllocationFailed) => *final(self) == *old(self) && spec_free(
                    old(self).spec_alloc(),
                ) < count,
            },
    {
        let ghost pre = *self;
        let mut i: usize = 0;
        while i < count
            invariant
                *self == pre,
                pre.wf(),
                id < pre.spec_tables().len(),
                start_page + count <= u64::MAX,
                i <= count,
                forall|p: u64|
                    start_page <= p < start_page + i ==> spec_page_index(
                        pre.spec_pt(id as int),
                        0,
                        p,
                    ) is None,
            decreases count - i,
        {
            let page = start_page + i as u64;
            if self.translate(id, page).is_some() {
                proof {
                    assert(start_page <= page < start_page + count && spec_page_index(
                        pre.spec_pt(id as int),
                        0,
                        page,
                    ) is Some);
                }
                return Err(MapError::PageAlreadyMapped);
            }
            i = i + 1;
        }
        proof {
            lemma_distinct_in_range(
                self.alloc.spec_recycled(),
                self.alloc.spec_start() as int,
                self.alloc.spec_next() as int,
            );
        }
        let free = self.alloc.free_frames();
        if free < count as u64 {
            return Err(MapError::FrameAllocationFailed);
        }
        let mut j: usize = 0;
        let ghost pre_pt = pre.spec_pt(id as int);
        let ghost n0 = pre_pt.len();
        while j < count
            invariant
                self.wf(),
                id < self.spec_tables().len() == pre.spec_tables().len(),
                pre.wf(),
                id < pre.spec_tables().len(),
                j <= count,
                start_page + count <= u64::MAX,
                pre.spec_alloc().spec_used() + count <= u64::MAX,
                pre_pt == pre.spec_pt(id as int),
                n0 == pre_pt.len(),
                forall|p: u64|
                    start_page <= p < start_page + count ==> spec_page_index(pre_pt, 0, p) is None,
                forall|t: int|
                    0 <= t < pre.spec_tables().len() && t != id ==> self.spec_tables()[t]
                        == pre.spec_tables()[t],
                self.spec_tables()[id as int].refs == pre.spec_tables()[id as int].refs,
                self.spec_alloc().spec_start() == pre.spec_alloc().spec_start(),
                self.spec_alloc().spec_end() == pre.spec_alloc().spec_end(),
                self.spec_alloc().spec_used() == pre.spec_alloc().spec_used() + j,
                self.spec_alloc().spec_recycled_count() == pre.spec_alloc().spec_recycled_count(),
                spec_free(self.spec_alloc()) == spec_free(pre.spec_alloc()) - j,
                spec_free(pre.spec_alloc()) >= count,
                self.spec_pt(id as int).len() == n0 + j,
                forall|i: int| 0 <= i < n0 ==> #[trigger] self.spec_pt(id as int)[i] == pre_pt[i],
                forall|i: int|
                    n0 <= i < n0 + j ==> (#[trigger] self.spec_pt(id as int)[i]).page
                        == start_page + (i - n0) && self.spec_pt(id as int)[i].user == user
                        && self.spec_pt(id as int)[i].writable == writable,
            decreases count - j,
        {
            let ghost at_entry = *self;
            let ghost alloc_before = self.spec_alloc();
            let ghost cur_pt = self.spec_pt(id as int);
            let f = match self.alloc.allocate() {
                Some(f) => f,
                None => {
                    proof {
                        assert(false);
                    }
                    return Err(MapError::FrameAllocationFailed);
                },
            };
            let ghost tbs = at_entry.spec_tables();
            let page = start_page + j as u64;
            proof {
                assert(self.tables@ == tbs);
                assert(cur_pt == at_entry.spec_tables()[id as int].pt@);
                lemma_page_index_props(pre_pt, 0, page);
                assert forall|i: int| 0 <= i < cur_pt.len() implies (#[trigger] cur_pt[i]).page
                    != page by {
                    if i < n0 {
                        assert(cur_pt[i] == pre_pt[i]);
                    }
                }
                lemma_page_index_char_from(cur_pt, 0, cur_pt.len() as int, page);
            }
            let e = MapEntry { page, frame: f, user, writable };
            let mut slot = self.tables.remove(id);
            proof {
                assert(slot.pt@ == cur_pt);
                assert(spec_page_index(cur_pt, 0, page) is None);
            }
            slot.pt.insert_entry(e);
            self.tables.insert(id, slot);
            proof {
                let pt_after = self.spec_pt(id as int);
                assert(self.tables@[id as int] == slot);
                assert(self.tables@ =~= tbs.update(id as int, self.tables@[id as int]));
                assert(pt_after == cur_pt.push(e));
                // The manager invariant: every mapped frame is live, and no
                // frame is mapped twice.
                assert forall|t: int|
                    0 <= t < self.spec_tables().len() implies (
                #[trigger] self.spec_tables()[t]).pt.wf() by {
                    if t != id {
                        assert(self.spec_tables()[t] == tbs[t]);
                    }
                }
                assert forall|t: int, i: int|
                    0 <= t < self.spec_tables().len() && 0 <= i < self.spec_pt(t).len() implies self
                    .spec_alloc().spec_is_live((#[trigger] self.spec_pt(t)[i]).frame) by {
                    if t == id && i == pt_after.len() - 1 {
                        assert(self.spec_pt(t)[i] == e);
                    } else {
                        if t != id {
                            assert(self.spec_pt(t) == at_entry.spec_pt(t));
                        } else {
                            assert(self.spec_pt(t)[i] == at_entry.spec_pt(t)[i]);
                        }
                        assert(at_entry.spec_alloc().spec_is_live(at_entry.spec_pt(t)[i].frame));
                        assert(alloc_before.spec_is_live(self.spec_pt(t)[i].frame));
                    }
                }
                assert forall|t1: int, i1: int, t2: int, i2: int|
                    0 <= t1 < self.spec_tables().len() && 0 <= i1 < self.spec_pt(t1).len() && 0
                        <= t2 < self.spec_tables().len() && 0 <= i2 < self.spec_pt(t2).len() && (t1
                        != t2 || i1 != i2) implies (#[trigger] self.spec_pt(t1)[i1]).frame != (
                #[trigger] self.spec_pt(t2)[i2]).frame by {
                    let new1 = t1 == id && i1 == pt_after.len() - 1;
                    let new2 = t2 == id && i2 == pt_after.len() - 1;
                    if !new1 {
                        if t1 != id {
                            assert(self.spec_pt(t1) == at_entry.spec_pt(t1));
                        } else {
                            assert(self.spec_pt(t1)[i1] == at_entry.spec_pt(t1)[i1]);
                        }
                        assert(at_entry.spec_alloc().spec_is_live(
                            at_entry.spec_pt(t1)[i1].frame,
                        ));
                    }
                    if !new2 {
                        if t2 != id {
                            assert(self.spec_pt(t2) == at_entry.spec_pt(t2));
                        } else {
                            assert(self.spec_pt(t2)[i2] == at_entry.spec_pt(t2)[i2]);
                        }
                        assert(at_entry.spec_alloc().spec_is_live(
                            at_entry.spec_pt(t2)[i2].frame,
                        ));
                    }
                    if new1 && !new2 {
                        assert(!alloc_before.spec_is_live(f));
                    } else if !new1 && new2 {
                        assert(!alloc_before.spec_is_live(f));
                    } else if !new1 && !new2 {
                        assert(at_entry.spec_pt(t1)[i1].frame != at_entry.spec_pt(t2)[i2].frame);
                    }
                }
                // The prefix and the already-added entries are untouched.
                assert forall|i: int| 0 <= i < n0 implies #[trigger] pt_after[i] == pre_pt[i] by {
                    assert(pt_after[i] == cur_pt[i]);
                }
                assert forall|i: int|
                    n0 <= i < n0 + j + 1 implies (#[trigger] pt_after[i]).page == start_page + (i
                        - n0) && pt_after[i].user == user && pt_after[i].writable == writable by {
                    if i < n0 + j {
                        assert(pt_after[i] == cur_pt[i]);
                    } else {
                        assert(pt_after[i] == e);
                    }
                }
            }
            j = j + 1;
        }
        proof {
            assert((self.spec_tables()[id as int]).pt.wf());
            assert forall|p: u64| start_page <= p < start_page + count implies {
                &&& (#[trigger] spec_page_index(self.spec_pt(id as int), 0, p)) is Some
                &&& spec_entry_at(self.spec_pt(id as int), p).user == user
                &&& spec_entry_at(self.spec_pt(id as int), p).writable == writable
            } by {
                let idx = n0 + (p - start_page);
                assert(self.spec_pt(id as int)[idx].page == p);
                lemma_entry_unique(self.spec_pt(id as int), p, idx);
            }
            assert forall|q: u64|
                !(start_page <= q < start_page + count) implies spec_same_mapping(
                pre.spec_pt(id as int),
                self.spec_pt(id as int),
                q,
            ) by {
                assert forall|i: int| n0 <= i < self.spec_pt(id as int).len() implies (#[trigger] self.spec_pt(id as int)[i]).page
                    != q by {}
                lemma_page_index_props(pre_pt, 0, q);
                match spec_page_index(pre_pt, 0, q) {
                    Some(k) => {
                        assert forall|jj: int| 0 <= jj < k implies (#[trigger] self.spec_pt(id as int)[jj]).page
                            != q by {
                            assert(self.spec_pt(id as int)[jj] == pre_pt[jj]);
                        }
                        assert(self.spec_pt(id as int)[k] == pre_pt[k]);
                        lemma_page_index_char_from(self.spec_pt(id as int), 0, k, q);
                    },
                    None => {
                        assert forall|jj: int| 0 <= jj < self.spec_pt(id as int).len() implies (
                        #[trigger] self.spec_pt(id as int)[jj]).page != q by {
                            if jj < n0 {
                                assert(self.spec_pt(id as int)[jj] == pre_pt[jj]);
                            }
                        }
                        lemma_page_index_char_from(self.spec_pt(id as int), 0, self.spec_pt(id as int).len() as int, q);
                    },
                }
            }
        }
        Ok(())
    }

    /// Unmaps the pages `start_page..start_page + count` of address space
    /// `id`; with `dealloc` set, their frames go back to the allocator's
    /// recycling stack, so the recycled count rises by exactly `count`.
    /// Fails, changing nothing, when a page of the range is not mapped.
    pub fn unmap_range(
        &mut self,
        id: usize,
        start_page: u64,
        count: usize,
        dealloc: bool,
    ) -> (r: Result<(), UnmapError>)
        requires
            old(self).wf(),
            id < old(self).spec_tables().len(),
            start_page + count <= u64::MAX,
            old(self).spec_alloc().spec_recycled_count() + count <= u64::MAX,
        ensures
            final(self).wf(),
            final(self).spec_tables().len() == old(self).spec_tables().len(),
            forall|t: int|
                0 <= t < old(self).spec_tables().len() && t != id ==> final(self).spec_tables()[t]
                    == old(self).spec_tables()[t],
            final(self).spec_tables()[id as int].refs == old(self).spec_tables()[id as int].refs,
            final(self).spec_alloc().spec_start() == old(self).spec_alloc().spec_start(),
            final(self).spec_alloc().spec_end() == old(self).spec_alloc().spec_end(),
            final(self).spec_alloc().spec_next() == old(self).spec_alloc().spec_next(),
            final(self).spec_alloc().spec_used() == old(self).spec_alloc().spec_used(),
            match r {
                Ok(()) => {
                    &&& final(self).spec_pt(id as int).len() + count == old(self).spec_pt(
                        id as int,
                    ).len()
                    &&& (forall|p: u64|
                        start_page <= p < start_page + count ==> (#[trigger] spec_page_index(
                            final(self).spec_pt(id as int),
                            0,
                            p,
                        )) is None)
                    &&& (forall|q: u64|
                        !(start_page <= q < start_page + count) ==> spec_same_mapping(
                            old(self).spec_pt(id as int),
                            final(self).spec_pt(id as int),
                            q,
                        ))
                    &&& (dealloc ==> final(self).spec_alloc().spec_recycled_count() == old(
                        self,
                    ).spec_alloc().spec_recycled_count() + count)
                    &&& (!dealloc ==> final(self).spec_alloc() == old(self).spec_alloc())
                },
                Err(UnmapError::PageNotMapped) => *final(self) == *old(self) && (exists|p: u64|
                    start_page <= p < start_page + count && spec_page_index(
                        old(self).spec_pt(id as int),
                        0,
                        p,
                    ) is None),
            },
    {
        let ghost pre = *self;
        let ghost pre_pt = pre.spec_pt(id as int);
        let mut i: usize = 0;
        while i < count
            invariant
                *self == pre,
                pre.wf(),
                id < pre.spec_tables().len(),
                start_page + count <= u64::MAX,
                i <= count,
                pre_pt == pre.spec_pt(id as int),
                forall|p: u64|
                    start_page <= p < start_page + i ==> (#[trigger] spec_page_index(
                        pre_pt,
                        0,
                        p,
                    )) is Some,
            decreases count - i,
        {
            let page = start_page + i as u64;
            if self.translate(id, page).is_none() {
                proof {
                    assert(start_page <= page < start_page + count && spec_page_index(
                        pre_pt,
                        0,
                        page,
                    ) is None);
                }
                return Err(UnmapError::PageNotMapped);
            }
            i = i + 1;
        }
        let mut j: usize = 0;
        while j < count
            invariant
                self.wf(),
                id < self.spec_tables().len() == pre.spec_tables().len(),
                pre.wf(),
                id < pre.spec_tables().len(),
                j <= count,
                start_page + count <= u64::MAX,
                pre.spec_alloc().spec_recycled_count() + count <= u64::MAX,
                pre_pt == pre.spec_pt(id as int),
                forall|t: int|
                    0 <= t < pre.spec_tables().len() && t != id ==> self.spec_tables()[t]
                        == pre.spec_tables()[t],
                self.spec_tables()[id as int].refs == pre.spec_tables()[id as int].refs,
                self.spec_alloc().spec_start() == pre.spec_alloc().spec_start(),
                self.spec_alloc().spec_end() == pre.spec_alloc().spec_end(),
                self.spec_alloc().spec_next() == pre.spec_alloc().spec_next(),
                self.spec_alloc().spec_used() == pre.spec_alloc().spec_used(),
                dealloc ==> self.spec_alloc().spec_recycled_count()
                    == pre.spec_alloc().spec_recycled_count() + j,
                !dealloc ==> self.spec_alloc() == pre.spec_alloc(),
                self.spec_pt(id as int).len() + j == pre_pt.len(),
                forall|p: u64|
                    start_page <= p < start_page + j ==> (#[trigger] spec_page_index(
                        self.spec_pt(id as int),
                        0,
                        p,
                    )) is None,
                forall|p: u64|
                    start_page + j <= p < start_page + count ==> (#[trigger] spec_page_index(
                        self.spec_pt(id as int),
                        0,
                        p,
                    )) is Some && spec_entry_at(self.spec_pt(id as int), p) == spec_entry_at(
                        pre_pt,
                        p,
                    ),
                forall|q: u64|
                    !(start_page <= q < start_page + count) ==> spec_same_mapping(
                        pre_pt,
                        self.spec_pt(id as int),
                        q,
                    ),
            decreases count - j,
        {
            let ghost at_entry = *self;
            let ghost cur = self.spec_pt(id as int);
            let page = start_page + j as u64;
            let ghost tbs = at_entry.spec_tables();
            let mut slot = self.tables.remove(id);
            proof {
                assert(slot.pt@ == cur);
                assert(spec_page_index(cur, 0, page) is Some);
            }
            let removed = slot.pt.remove_page(page);
            self.tables.insert(id, slot);
            let e = match removed {
                Some(e) => e,
                None => {
                    proof {
                        assert(false);
                    }
                    return Err(UnmapError::PageNotMapped);
                },
            };
            let ghost idx = spec_page_index(cur, 0, page)->Some_0;
            proof {
                assert(self.tables@[id as int] == slot);
                assert(self.tables@ =~= tbs.update(id as int, self.tables@[id as int]));
                assert(self.spec_pt(id as int) == cur.remove(idx));
                lemma_page_index_props(cur, 0, page);
                assert(e == cur[idx]);
            }
            if dealloc {
                proof {
                    assert(at_entry.spec_alloc().spec_is_live(at_entry.spec_pt(id as int)[idx].frame));
                    assert(self.spec_alloc() == at_entry.spec_alloc());
                }
                let okd = self.alloc.deallocate(e.frame);
                proof {
                    assert(okd);
                }
            }
            proof {
                let post = self.spec_pt(id as int);
                let alloc_now = self.spec_alloc();
                assert(post == cur.remove(idx));
                // Distinct pages in `cur`, for the removal lemmas.
                assert((at_entry.spec_tables()[id as int]).pt.wf());
                assert(forall|a: int, b: int|
                    0 <= a < b < cur.len() ==> (#[trigger] cur[a].page) != (
                    #[trigger] cur[b].page));
                // The removed page is gone.
                assert forall|ii: int| 0 <= ii < post.len() implies (#[trigger] post[ii]).page
                    != page by {
                    let oi = if ii < idx {
                        ii
                    } else {
                        ii + 1
                    };
                    assert(post[ii] == cur[oi]);
                }
                lemma_page_index_char_from(post, 0, post.len() as int, page);
                // Other pages keep their mapping.
                assert forall|q: u64| q != page implies spec_same_mapping(cur, post, q) by {
                    lemma_remove_preserves_others(cur, idx, q);
                }
                // Pages already unmapped stay unmapped; pages ahead keep
                // the entry they had; pages outside stay as they were.
                assert forall|p: u64| start_page <= p < start_page + j + 1 implies (
                #[trigger] spec_page_index(post, 0, p)) is None by {
                    if p != page {
                        assert(spec_same_mapping(cur, post, p));
                    }
                }
                assert forall|p: u64| start_page + j + 1 <= p < start_page + count implies (
                #[trigger] spec_page_index(post, 0, p)) is Some && spec_entry_at(post, p)
                    == spec_entry_at(pre_pt, p) by {
                    assert(spec_same_mapping(cur, post, p));
                }
                assert forall|q: u64|
                    !(start_page <= q < start_page + count) implies spec_same_mapping(
                    pre_pt,
                    post,
                    q,
                ) by {
                    assert(spec_same_mapping(pre_pt, cur, q));
                    assert(spec_same_mapping(cur, post, q));
                }
                // The manager invariant survives the removal.
                assert forall|t: int|
                    0 <= t < self.spec_tables().len() implies (
                #[trigger] self.spec_tables()[t]).pt.wf() by {
                    if t != id {
                        assert(self.spec_tables()[t] == tbs[t]);
                    }
                }
                assert forall|t: int, ii: int|
                    0 <= t < self.spec_tables().len() && 0 <= ii < self.spec_pt(t).len() implies
                    alloc_now.spec_is_live((#[trigger] self.spec_pt(t)[ii]).frame) by {
                    let (ot, oi): (int, int) = if t == id {
                        (
                            t,
                            if ii < idx {
                                ii
                            } else {
                                ii + 1
                            },
                        )
                    } else {
                        (t, ii)
                    };
                    if t != id {
                        assert(self.spec_pt(t) == at_entry.spec_pt(t));
                    } else {
                        assert(self.spec_pt(t)[ii] == at_entry.spec_pt(t)[oi]);
                    }
                    assert(at_entry.spec_alloc().spec_is_live(at_entry.spec_pt(ot)[oi].frame));
                    if dealloc {
                        assert(at_entry.spec_pt(ot)[oi].frame != e.frame);
                    }
                }
                assert forall|t1: int, i1: int, t2: int, i2: int|
                    0 <= t1 < self.spec_tables().len() && 0 <= i1 < self.spec_pt(t1).len() && 0
                        <= t2 < self.spec_tables().len() && 0 <= i2 < self.spec_pt(t2).len() && (t1
                        != t2 || i1 != i2) implies (#[trigger] self.spec_pt(t1)[i1]).frame != (
                #[trigger] self.spec_pt(t2)[i2]).frame by {
                    let o1: int = if t1 == id && i1 >= idx {
                        i1 + 1
                    } else {
                        i1
                    };
                    let o2: int = if t2 == id && i2 >= idx {
                        i2 + 1
                    } else {
                        i2
                    };
                    if t1 != id {
                        assert(self.spec_pt(t1) == at_entry.spec_pt(t1));
                    } else {
                        assert(self.spec_pt(t1)[i1] == at_entry.spec_pt(t1)[o1]);
                    }
                    if t2 != id {
                        assert(self.spec_pt(t2) == at_entry.spec_pt(t2));
                    } else {
                        assert(self.spec_pt(t2)[i2] == at_entry.spec_pt(t2)[o2]);
                    }
                    assert(at_entry.spec_pt(t1)[o1].frame != at_entry.spec_pt(t2)[o2].frame);
                }
            }
            j = j + 1;
        }
        Ok(())
    }

    /// Mapping a fresh range and then unmapping it with deallocation hands
    /// every frame back: the allocator's recycled count rises by exactly
    /// the number of pages mapped, and no page of the range stays mapped.
    pub fn map_then_unmap(&mut self, id: usize, start_page: u64, count: usize) -> (r: Result<
        (),
        MapError,
    >)
        requires
            old(self).wf(),
            id < old(self).spec_tables().len(),
            start_page + count <= u64::MAX,
            old(self).spec_alloc().spec_used() + count <= u64::MAX,
            old(self).spec_alloc().spec_recycled_count() + count <= u64::MAX,
        ensures
            final(self).wf(),
            match r {
                Ok(()) => {
                    &&& final(self).spec_alloc().spec_recycled_count() == old(
                        self,
                    ).spec_alloc().spec_recycled_count() + count
                    &&& final(self).spec_alloc().spec_used() == old(self).spec_alloc().spec_used()
                        + count
                    &&& (forall|p: u64|
                        start_page <= p < start_page + count ==> (#[trigger] spec_page_index(
                            final(self).spec_pt(id as int),
                            0,
                            p,
                        )) is None)
                },
                Err(_) => *final(self) == *old(self),
            },
    {
        match self.map_range(id, start_page, count, true, true) {
            Ok(()) => {},
            Err(e) => {
                return Err(e);
            },
        }
        let r = self.unmap_range(id, start_page, count, true);
        proof {
            assert(r is Ok);
        }
        Ok(())
    }

    /// The frame that `page` maps to in address space `id`, if any.
    pub fn translate(&self, id: usize, page: u64) -> (r: Option<u64>)
        requires
            self.wf(),
            id < self.spec_tables().len(),
        ensures
            match r {
                Some(f) => spec_page_index(self.spec_pt(id as int), 0, page) is Some && f
                    == self.spec_pt(id as int)[spec_page_index(
                    self.spec_pt(id as int),
                    0,
                    page,
                )->Some_0].frame,
                None => spec_page_index(self.spec_pt(id as int), 0, page) is None,
            },
    {
        self.tables[id].pt.translate(page)
    }
}

/// A page never found by the scan is not mapped at all.
proof fn lemma_page_index_none_means_absent(entries: Seq<MapEntry>, page: u64)
    requires
        spec_page_index(entries, 0, page) is None,
    ensures
        forall|i: int| 0 <= i < entries.len() ==> (#[trigger] entries[i].page) != page,
{
    lemma_page_index_none_rec(entries, 0, page);
}

proof fn lemma_page_index_none_rec(entries: Seq<MapEntry>, i: int, page: u64)
    requires
        0 <= i <= entries.len(),
        spec_page_index(entries, i, page) is None,
    ensures
        forall|j: int| i <= j < entries.len() ==> (#[trigger] entries[j].page) != page,
    decreases entries.len() - i,
{
    if i < entries.len() {
        lemma_page_index_none_rec(entries, i + 1, page);
    }
}

/// A page that occurs is found by the scan.
proof fn lemma_page_index_finds(entries: Seq<MapEntry>, i: int, page: u64)
    requires
        0 <= i <= entries.len(),
        exists|j: int| i <= j < entries.len() && (#[trigger] entries[j].page) == page,
    ensures
        spec_page_index(entries, i, page) is Some,
    decreases entries.len() - i,
{
    if i < entries.len() && entries[i].page != page {
        let j = choose|j: int| i <= j < entries.len() && (#[trigger] entries[j].page) == page;
        assert(i + 1 <= j);
        lemma_page_index_finds(entries, i + 1, page);
    }
}

} // verus!
