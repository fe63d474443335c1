//! What a reader of a serving object remembers: payload places it has seen, and the latest
//! directory pages.
use vstd::prelude::*;

use crate::bytes::{u32_at, u64_at};
use crate::cancel::{check_cancel, ended, Cancel};
use crate::error::Error;
use crate::index::lemma_row_of;
use crate::skv_audit::{audit_limit, verification_limit};
use crate::skv_directory::{
    page_refusal, rec_begin, rec_encoded, record_refusal, record_start, validate_page,
    validate_record,
};
use crate::skv_header::{
    Header, BOOTSTRAP, MAX_LEAF_RECORDS, MAX_OBJECT, PAGE, RECORD, RECORDS_PER_PAGE,
};
use crate::text::same_bytes;

verus! {

pub const PAGE_CACHE: usize = 64;

pub const DIRECTORY_RANGE_PAGES: usize = 8;

/// Begin, end and leader of a payload.
pub type Interval = (u64, u64, usize);

/// Payload places that were visited, by their begin. None overlaps another.
pub struct Intervals {
    pub entries: Vec<Interval>,
    pub capacity: usize,
}

/// The places are not empty, sorted, and do not overlap.
pub open spec fn disjoint(entries: Seq<Interval>) -> bool {
    &&& forall|i: int| 0 <= i < entries.len() ==> (#[trigger] entries[i]).0 < entries[i].1
    &&& forall|i: int, j: int|
        0 <= i < j < entries.len() ==> (#[trigger] entries[i]).1 <= (#[trigger] entries[j]).0
}

/// A place shares a byte with one of `entries`.
pub open spec fn overlaps(entries: Seq<Interval>, begin: u64, end: u64) -> bool {
    exists|i: int|
        0 <= i < entries.len() && (#[trigger] entries[i]).0 < end && begin < entries[i].1
}

impl Intervals {
    pub open spec fn wf(&self) -> bool {
        disjoint(self.entries@) && self.entries@.len() <= self.capacity
    }

    pub fn new(capacity: usize) -> (r: Intervals)
        ensures
            r.wf(),
            r.entries@ == Seq::<Interval>::empty(),
            r.capacity == capacity,
    {
        Intervals { entries: Vec::new(), capacity }
    }

    /// The first entry that does not begin before `begin`.
    fn position(&self, begin: u64) -> (r: usize)
        requires
            self.wf(),
        ensures
            r <= self.entries@.len(),
            forall|i: int| 0 <= i < r ==> (#[trigger] self.entries@[i]).0 < begin,
            forall|i: int| r <= i < self.entries@.len() ==> begin <= (#[trigger] self.entries@[i]).0,
    {
        let mut low: usize = 0;
        let mut high: usize = self.entries.len();
        while low < high
            invariant
                self.wf(),
                low <= high <= self.entries@.len(),
                forall|i: int| 0 <= i < low ==> (#[trigger] self.entries@[i]).0 < begin,
                forall|i: int|
                    high <= i < self.entries@.len() ==> begin <= (#[trigger] self.entries@[i]).0,
            decreases high - low,
        {
            let middle: usize = low + (high - low) / 2;
            if self.entries[middle].0 < begin {
                proof {
                    assert forall|i: int| 0 <= i <= middle implies (#[trigger] self.entries@[i]).0
                        < begin by {
                        if i < middle {
                            assert(self.entries@[i].1 <= self.entries@[middle as int].0);
                        }
                    }
                }
                low = middle + 1;
            } else {
                proof {
                    assert forall|i: int| middle <= i < self.entries@.len() implies begin <= (
                    #[trigger] self.entries@[i]).0 by {
                        if i > middle {
                            assert(self.entries@[middle as int].1 <= self.entries@[i].0);
                        }
                    }
                }
                high = middle;
            }
        }
        low
    }

    /// Note a payload's place. A place that was noted before is fine; one that shares a byte
    /// with another is refused, and so is one that no room is left for.
    pub fn visit(&mut self, begin: u64, end: u64, id: usize) -> (r: Result<(), Error>)
        requires
            old(self).wf(),
            begin < end,
        ensures
            final(self).wf(),
            final(self).capacity == old(self).capacity,
            if old(self).entries@.contains((begin, end, id)) {
                r is Ok && final(self).entries@ == old(self).entries@
            } else if overlaps(old(self).entries@, begin, end) {
                r == Err::<(), Error>(Error::PayloadOverlap) && final(self).entries@ == old(self).entries@
            } else if old(self).entries@.len() == old(self).capacity {
                r == Err::<(), Error>(Error::PayloadBudget) && final(self).entries@ == old(self).entries@
            } else {
                &&& r is Ok
                &&& exists|at: int|
                    0 <= at <= old(self).entries@.len() && final(self).entries@ == old(self).entries@.insert(at, (begin, end, id))
            },
    {
        let at: usize = self.position(begin);
        let n: usize = self.entries.len();
        let ghost before = self.entries@;
        if at < n && self.entries[at].0 == begin {
            let (_, other_end, other_id) = self.entries[at];
            if other_end == end && other_id == id {
                assert(before[at as int] == (begin, end, id));
                return Ok(());
            }
            proof {
                assert(before[at as int].0 < end && begin < before[at as int].1);
                assert(overlaps(before, begin, end));
                if before.contains((begin, end, id)) {
                    let k = choose|k: int| 0 <= k < before.len() && before[k] == (begin, end, id);
                    if k < at {
                        assert(before[k].0 < begin);
                    } else if k > at {
                        assert(before[at as int].1 <= before[k].0);
                    }
                }
            }
            return Err(Error::PayloadOverlap);
        }
        proof {
            assert(!before.contains((begin, end, id))) by {
                if before.contains((begin, end, id)) {
                    let k = choose|k: int| 0 <= k < before.len() && before[k] == (begin, end, id);
                    if k < at {
                        assert(before[k].0 < begin);
                    } else if k > at {
                        assert(before[at as int].1 <= before[k].0);
                        assert(begin <= before[at as int].0);
                    }
                }
            }
        }
        if at > 0 && self.entries[at - 1].1 > begin {
            assert(before[at - 1].0 < end && begin < before[at - 1].1);
            return Err(Error::PayloadOverlap);
        }
        if at < n && end > self.entries[at].0 {
            assert(before[at as int].0 < end && begin < before[at as int].1);
            return Err(Error::PayloadOverlap);
        }
        proof {
            assert forall|i: int| 0 <= i < at implies (#[trigger] before[i]).1 <= begin by {
                if i < at - 1 {
                    assert(before[i].1 <= before[at - 1].0);
                }
            }
            assert forall|i: int| at <= i < n implies end <= (#[trigger] before[i]).0 by {
                if i > at {
                    assert(before[at as int].1 <= before[i].0);
                }
            }
        }
        if n >= self.capacity {
            return Err(Error::PayloadBudget);
        }
        self.entries.insert(at, (begin, end, id));
        proof {
            let after = self.entries@;
            assert(after == before.insert(at as int, (begin, end, id)));
            assert forall|i: int| 0 <= i < after.len() implies (#[trigger] after[i]).0
                < after[i].1 by {
                if i < at {
                    assert(after[i] == before[i]);
                } else if i > at {
                    assert(after[i] == before[i - 1]);
                }
            }
            assert forall|i: int, j: int| 0 <= i < j < after.len() implies (#[trigger] after[i]).1
                <= (#[trigger] after[j]).0 by {
                if i != at && j != at {
                    let a = if i < at {
                        i
                    } else {
                        i - 1
                    };
                    let b = if j < at {
                        j
                    } else {
                        j - 1
                    };
                    assert(after[i] == before[a] && after[j] == before[b]);
                } else if i == at {
                    assert(after[j] == before[j - 1]);
                } else {
                    assert(after[i] == before[i]);
                }
            }
        }
        Ok(())
    }

    /// The visited places follow one another without a gap, the first of them at `begin`.
    pub open spec fn chained(&self, begin: int) -> bool {
        let e = self.entries@;
        &&& e.len() > 0 ==> e[0].0 == begin
        &&& forall|i: int| 0 < i < e.len() ==> (#[trigger] e[i]).0 == e[i - 1].1
    }

    /// Where the last visited place ends, or `begin`.
    pub open spec fn end_from(&self, begin: int) -> int {
        let e = self.entries@;
        if e.len() == 0 {
            begin
        } else {
            e[e.len() - 1].1 as int
        }
    }

    /// Check that a complete audit saw `count` payloads that fill the object from `begin` to
    /// `end`.
    pub fn complete(&self, count: usize, begin: u64, end: u64) -> (r: Result<(), Error>)
        ensures
            r == (if self.entries@.len() != count {
                Err(Error::PayloadMissing)
            } else if !self.chained(begin as int) {
                Err(Error::PayloadGap)
            } else if self.end_from(begin as int) != end {
                Err(Error::PayloadTrailing)
            } else {
                Ok::<(), Error>(())
            }),
    {
        let n: usize = self.entries.len();
        if n != count {
            return Err(Error::PayloadMissing);
        }
        let mut position: u64 = begin;
        let mut i: usize = 0;
        while i < n
            invariant
                i <= n,
                n == self.entries@.len(),
                n == count,
                position == (if i == 0 {
                    begin
                } else {
                    self.entries@[i - 1].1
                }),
                i > 0 ==> self.entries@[0].0 == begin,
                forall|k: int| 0 < k < i ==> (#[trigger] self.entries@[k]).0 == self.entries@[k
                    - 1].1,
            decreases n - i,
        {
            if self.entries[i].0 != position {
                assert(self.entries@[i as int].0 != position);
                return Err(Error::PayloadGap);
            }
            position = self.entries[i].1;
            i += 1;
        }
        if position != end {
            return Err(Error::PayloadTrailing);
        }
        Ok(())
    }
}

/// The latest directory pages, the one used longest ago first.
pub struct PageCache {
    pub pages: Vec<(usize, Vec<u8>)>,
}

pub open spec fn pages_of(pages: Seq<(usize, Vec<u8>)>) -> Seq<(int, Seq<u8>)> {
    pages.map_values(|p: (usize, Vec<u8>)| (p.0 as int, p.1@))
}

/// Page `id` is among `pages`.
pub open spec fn cached(pages: Seq<(int, Seq<u8>)>, id: int) -> bool {
    exists|i: int| 0 <= i < pages.len() && (#[trigger] pages[i]).0 == id
}

/// Where page `id` is among `pages`.
pub open spec fn place_of(pages: Seq<(int, Seq<u8>)>, id: int) -> int {
    choose|i: int| 0 <= i < pages.len() && (#[trigger] pages[i]).0 == id
}

/// No page is held twice.
pub open spec fn single(pages: Seq<(int, Seq<u8>)>) -> bool {
    forall|i: int, j: int|
        0 <= i < j < pages.len() ==> (#[trigger] pages[i]).0 != (#[trigger] pages[j]).0
}

/// The cache after page `id` was put last: in place of an older copy, or, in a full cache,
/// of the page used longest ago.
pub open spec fn with_page(pages: Seq<(int, Seq<u8>)>, id: int, bytes: Seq<u8>) -> Seq<
    (int, Seq<u8>),
> {
    if cached(pages, id) {
        pages.remove(place_of(pages, id)).push((id, bytes))
    } else if pages.len() >= PAGE_CACHE {
        pages.drop_first().push((id, bytes))
    } else {
        pages.push((id, bytes))
    }
}

/// The cache after the first `n` pages of a directory range were put into it.
pub open spec fn with_range(pages: Seq<(int, Seq<u8>)>, first: int, bytes: Seq<u8>, n: int) -> Seq<
    (int, Seq<u8>),
>
    decreases n,
{
    if n <= 0 {
        pages
    } else {
        with_page(
            with_range(pages, first, bytes, n - 1),
            first + n - 1,
            page_at(bytes, n - 1),
        )
    }
}

/// Page `i` of a directory range.
pub open spec fn page_at(bytes: Seq<u8>, i: int) -> Seq<u8> {
    bytes.subrange(i * PAGE, i * PAGE + PAGE)
}

/// What the pages from `i` on of a directory range are refused for, if they are.
pub open spec fn range_refusal(records: int, first: int, bytes: Seq<u8>, i: int) -> Option<Error>
    decreases bytes.len() - i,
{
    if i < 0 || i * PAGE >= bytes.len() {
        None
    } else if page_refusal(records, first + i, page_at(bytes, i)) is Some {
        page_refusal(records, first + i, page_at(bytes, i))
    } else {
        range_refusal(records, first, bytes, i + 1)
    }
}

pub proof fn lemma_place(pages: Seq<(int, Seq<u8>)>, id: int, at: int)
    requires
        single(pages),
        0 <= at < pages.len(),
        pages[at].0 == id,
    ensures
        cached(pages, id),
        place_of(pages, id) == at,
{
    let p = place_of(pages, id);
    if p < at {
        assert(pages[p].0 != pages[at].0);
    } else if p > at {
        assert(pages[at].0 != pages[p].0);
    }
}

impl PageCache {
    pub open spec fn view(&self) -> Seq<(int, Seq<u8>)> {
        pages_of(self.pages@)
    }

    pub open spec fn wf(&self) -> bool {
        &&& self.pages@.len() <= PAGE_CACHE
        &&& single(self@)
        &&& forall|i: int| 0 <= i < self@.len() ==> (#[trigger] self@[i]).1.len() == PAGE
    }

    pub fn new() -> (r: PageCache)
        ensures
            r.wf(),
            r@.len() == 0,
    {
        PageCache { pages: Vec::new() }
    }

    fn find(&self, id: usize) -> (r: Option<usize>)
        requires
            self.wf(),
        ensures
            match r {
                Some(i) => i < self@.len() && self@[i as int].0 == id && cached(self@, id as int)
                    && place_of(self@, id as int) == i,
                None => !cached(self@, id as int),
            },
    {
        let mut i: usize = 0;
        while i < self.pages.len()
            invariant
                self.wf(),
                i <= self.pages@.len(),
                forall|k: int| 0 <= k < i ==> (#[trigger] self@[k]).0 != id,
            decreases self.pages@.len() - i,
        {
            if self.pages[i].0 == id {
                proof {
                    assert(self@[i as int].0 == id);
                    lemma_place(self@, id as int, i as int);
                }
                return Some(i);
            }
            assert(self@[i as int].0 == self.pages@[i as int].0);
            i += 1;
        }
        None
    }

    /// Put a page last.
    fn put(&mut self, id: usize, page: Vec<u8>)
        requires
            old(self).wf(),
            page@.len() == PAGE,
        ensures
            final(self).wf(),
            final(self)@ == with_page(old(self)@, id as int, page@),
    {
        let ghost before = self@;
        match self.find(id) {
            Some(at) => {
                let _ = self.pages.remove(at);
                assert(self@ =~= before.remove(at as int));
            },
            None => {
                if self.pages.len() >= PAGE_CACHE {
                    let _ = self.pages.remove(0);
                    assert(self@ =~= before.drop_first());
                }
            },
        }
        let ghost middle = self@;
        let ghost bytes = page@;
        self.pages.push((id, page));
        proof {
            assert(self@ =~= middle.push((id as int, bytes)));
            assert(self@ == with_page(before, id as int, bytes));
            assert(forall|k: int| 0 <= k < middle.len() ==> (#[trigger] middle[k]).0 != id) by {
                if cached(before, id as int) {
                    let at = place_of(before, id as int);
                    assert forall|k: int| 0 <= k < middle.len() implies (#[trigger] middle[k]).0
                        != id by {
                        let o = if k < at {
                            k
                        } else {
                            k + 1
                        };
                        assert(middle[k] == before[o]);
                        if o < at {
                            assert(before[o].0 != before[at].0);
                        } else {
                            assert(before[at].0 != before[o].0);
                        }
                    }
                } else {
                    assert forall|k: int| 0 <= k < middle.len() implies (#[trigger] middle[k]).0
                        != id by {
                        if middle.len() < before.len() {
                            assert(middle[k] == before[k + 1]);
                        } else {
                            assert(middle[k] == before[k]);
                        }
                    }
                }
            }
            assert(single(middle)) by {
                assert forall|i: int, j: int| 0 <= i < j < middle.len() implies (
                #[trigger] middle[i]).0 != (#[trigger] middle[j]).0 by {
                    if middle.len() < before.len() {
                        let at = if cached(before, id as int) {
                            place_of(before, id as int)
                        } else {
                            0
                        };
                        let a = if i < at {
                            i
                        } else {
                            i + 1
                        };
                        let b = if j < at {
                            j
                        } else {
                            j + 1
                        };
                        assert(middle[i] == before[a] && middle[j] == before[b]);
                    } else {
                        assert(middle[i] == before[i] && middle[j] == before[j]);
                    }
                }
            }
            assert forall|i: int, j: int| 0 <= i < j < self@.len() implies (#[trigger] self@[i]).0
                != (#[trigger] self@[j]).0 by {
                assert(self@[i] == middle[i]);
                if j < middle.len() {
                    assert(self@[j] == middle[j]);
                }
            }
            assert forall|i: int| 0 <= i < self@.len() implies (#[trigger] self@[i]).1.len()
                == PAGE by {
                if i < middle.len() {
                    assert(self@[i] == middle[i]);
                    if middle.len() < before.len() {
                        let at = if cached(before, id as int) {
                            place_of(before, id as int)
                        } else {
                            0
                        };
                        let a = if i < at {
                            i
                        } else {
                            i + 1
                        };
                        assert(middle[i] == before[a]);
                    } else {
                        assert(middle[i] == before[i]);
                    }
                }
            }
        }
    }

    /// The record `id`, if its page is held; the page is then the one used last.
    pub fn record(&mut self, id: usize) -> (r: Option<Vec<u8>>)
        requires
            old(self).wf(),
        ensures
            final(self).wf(),
            ({
                let page = id as int / RECORDS_PER_PAGE as int;
                if cached(old(self)@, page) {
                    let bytes = old(self)@[place_of(old(self)@, page)].1;
                    &&& r matches Some(record) && record@ == bytes.subrange(
                        record_start(id as int),
                        record_start(id as int) + RECORD,
                    ) && record@.len() == RECORD
                    &&& final(self)@ == with_page(old(self)@, page, bytes)
                } else {
                    r is None && final(self)@ == old(self)@
                }
            }),
    {
        let page_id: usize = id / RECORDS_PER_PAGE;
        let at: usize = match self.find(page_id) {
            Some(at) => at,
            None => return None,
        };
        let ghost before = self@;
        let (_, page) = self.pages.remove(at);
        let ghost after = self@;
        let start: usize = 16 + (id % RECORDS_PER_PAGE) * RECORD;
        let record = vstd::slice::slice_to_vec(
            vstd::slice::slice_subrange(page.as_slice(), start, start + RECORD),
        );
        proof {
            assert(after =~= before.remove(at as int));
            assert(before[at as int].1 == page@);
            assert forall|k: int| 0 <= k < after.len() implies (#[trigger] after[k]).0 != page_id by {
                let o = if k < at {
                    k
                } else {
                    k + 1
                };
                assert(after[k] == before[o]);
                if o < at {
                    assert(before[o].0 != before[at as int].0);
                } else {
                    assert(before[at as int].0 != before[o].0);
                }
            }
            assert forall|i: int, j: int| 0 <= i < j < after.len() implies (#[trigger] after[i]).0
                != (#[trigger] after[j]).0 by {
                let a = if i < at {
                    i
                } else {
                    i + 1
                };
                let b = if j < at {
                    j
                } else {
                    j + 1
                };
                assert(after[i] == before[a] && after[j] == before[b]);
            }
            assert forall|i: int| 0 <= i < after.len() implies (#[trigger] after[i]).1.len()
                == PAGE by {
                let a = if i < at {
                    i
                } else {
                    i + 1
                };
                assert(after[i] == before[a]);
            }
        }
        self.put(page_id, page);
        Some(record)
    }

    /// Take the pages of a directory range, which begins with page `first`. Every page is
    /// checked before any is taken.
    pub fn take_range<C: Cancel>(&mut self, records: usize, first: usize, bytes: &[u8], cancel: &C) -> (r:
        Result<(), Error>)
        requires
            old(self).wf(),
            bytes@.len() % PAGE as nat == 0,
            (first + bytes@.len() / PAGE as nat - 1) * RECORDS_PER_PAGE < records,
        ensures
            final(self).wf(),
            r is Err ==> final(self)@ == old(self)@,
            ended(
                cancel,
                r,
                match range_refusal(records as int, first as int, bytes@, 0) {
                    Some(e) => r == Err::<(), Error>(e),
                    None => r is Ok && final(self)@ == with_range(
                        old(self)@,
                        first as int,
                        bytes@,
                        bytes@.len() as int / PAGE as int,
                    ),
                },
            ),
    {
        let n: usize = bytes.len() / PAGE;
        let length: usize = bytes.len();
        let mut i: usize = 0;
        while i < n
            invariant
                i <= n,
                length == bytes@.len(),
                length == n * PAGE,
                (first + n - 1) * RECORDS_PER_PAGE < records,
                range_refusal(records as int, first as int, bytes@, 0) == range_refusal(
                    records as int,
                    first as int,
                    bytes@,
                    i as int,
                ),
                self@ == old(self)@,
                self.wf(),
            decreases n - i,
        {
            check_cancel(cancel)?;
            assert(i * PAGE + PAGE <= length);
            let page = vstd::slice::slice_subrange(bytes, i * PAGE, i * PAGE + PAGE);
            assert(page@ == page_at(bytes@, i as int));
            match validate_page(records, first + i, page) {
                Ok(()) => {},
                Err(e) => return Err(e),
            }
            i += 1;
        }
        check_cancel(cancel)?;
        let mut i: usize = 0;
        let ghost before = self@;
        while i < n
            invariant
                i <= n,
                length == bytes@.len(),
                length == n * PAGE,
                first + n - 1 <= usize::MAX,
                self.wf(),
                self@ == with_range(before, first as int, bytes@, i as int),
            decreases n - i,
        {
            let page = vstd::slice::slice_to_vec(
                vstd::slice::slice_subrange(bytes, i * PAGE, i * PAGE + PAGE),
            );
            assert(page@ == page_at(bytes@, i as int));
            self.put(first + i, page);
            i += 1;
        }
        Ok(())
    }
}

/// A page that stands `back` places from the end of the cache, with its bytes.
spec fn stands_back(pages: Seq<(int, Seq<u8>)>, id: int, bytes: Seq<u8>, back: int) -> bool {
    exists|i: int|
        0 <= i < pages.len() && pages.len() - i <= back && #[trigger] pages[i] == (id, bytes)
}

proof fn lemma_put_keeps(
    pages: Seq<(int, Seq<u8>)>,
    id: int,
    bytes: Seq<u8>,
    back: int,
    other: int,
    page: Seq<u8>,
)
    requires
        stands_back(pages, id, bytes, back),
        back < PAGE_CACHE,
        pages.len() <= PAGE_CACHE,
        other != id,
    ensures
        stands_back(with_page(pages, other, page), id, bytes, back + 1),
{
    let i = choose|i: int|
        0 <= i < pages.len() && pages.len() - i <= back && #[trigger] pages[i] == (id, bytes);
    let after = with_page(pages, other, page);
    if cached(pages, other) {
        let at = place_of(pages, other);
        let k = if i < at {
            i
        } else {
            i - 1
        };
        assert(after[k] == pages[i]);
    } else if pages.len() >= PAGE_CACHE {
        assert(after[i - 1] == pages[i]);
    } else {
        assert(after[i] == pages[i]);
    }
}

proof fn lemma_range_held(
    pages: Seq<(int, Seq<u8>)>,
    first: int,
    bytes: Seq<u8>,
    n: int,
    k: int,
)
    requires
        pages.len() <= PAGE_CACHE,
        0 <= k < n <= PAGE_CACHE,
    ensures
        with_range(pages, first, bytes, n).len() <= PAGE_CACHE,
        stands_back(
            with_range(pages, first, bytes, n),
            first + k,
            page_at(bytes, k),
            n - k,
        ),
    decreases n,
{
    let inner = with_range(pages, first, bytes, n - 1);
    if n - 1 > 0 {
        lemma_range_held(pages, first, bytes, n - 1, if k < n - 1 {
            k
        } else {
            0
        });
    }
    let after = with_page(inner, first + n - 1, page_at(bytes, n - 1));
    if k == n - 1 {
        assert(after[after.len() - 1] == (first + k, page_at(bytes, k)));
    } else {
        lemma_put_keeps(
            inner,
            first + k,
            page_at(bytes, k),
            n - 1 - k,
            first + n - 1,
            page_at(bytes, n - 1),
        );
    }
}

/// A directory range that was taken is held: each of its pages, with its bytes.
pub proof fn a_taken_range_is_held(
    pages: Seq<(int, Seq<u8>)>,
    first: int,
    bytes: Seq<u8>,
    n: int,
    k: int,
)
    requires
        pages.len() <= PAGE_CACHE,
        0 <= k < n <= DIRECTORY_RANGE_PAGES,
    ensures
        exists|i: int|
            0 <= i < with_range(pages, first, bytes, n).len() && #[trigger] with_range(
                pages,
                first,
                bytes,
                n,
            )[i] == (first + k, page_at(bytes, k)),
{
    lemma_range_held(pages, first, bytes, n, k);
}

/// The directory range that holds page `page`: ranges are aligned, at most `cap` pages.
pub open spec fn range_of(page: int, cap: int, pages: int) -> (int, int) {
    let first = page / cap * cap;
    (first, if cap <= pages - first {
        cap
    } else {
        pages - first
    })
}

/// Where to find a record: at hand, or in a directory range that is to be read first.
#[derive(Debug)]
pub enum Lookup {
    Record(Vec<u8>),
    Range { first: usize, offset: u64, length: usize },
}

/// Records that a leaf record is checked against, by their ids.
#[derive(Clone, Copy, Debug, PartialEq, Eq, Structural)]
pub struct Needs {
    pub leader: Option<usize>,
    pub previous: Option<usize>,
    pub next: Option<usize>,
}

/// A serving object that is being read.
pub struct Reader {
    pub header: Header,
    pub length: u64,
    /// Directory pages that one read may take.
    pub range_pages: usize,
    pub cache: PageCache,
    pub intervals: Intervals,
    pub logical_reads: usize,
    pub logical_read_limit: usize,
    pub exhaustive_ordered_verify: bool,
}

pub const MAX_READS: usize = 65_536;

/// The limits of ordinary reads, kept while a verification runs.
#[derive(Clone, Copy, Debug)]
pub struct ServingLimits {
    pub logical_read_limit: usize,
    pub exhaustive_ordered_verify: bool,
}

/// The byte range of a record that a reader admitted.
pub open spec fn payload_end(record: Seq<u8>) -> int {
    rec_begin(record) + rec_encoded(record)
}

/// Parts of a group's record that are the same for every member.
pub open spec fn alias_of(record: Seq<u8>, leader: Seq<u8>) -> bool {
    &&& record.subrange(0, 28) == leader.subrange(0, 28)
    &&& record.subrange(32, 64) == leader.subrange(32, 64)
    &&& record.subrange(112, 128) == leader.subrange(112, 128)
}

/// A payload's place was noted among those before it.
pub open spec fn noted(before: Seq<Interval>, after: Seq<Interval>, entry: Interval) -> bool {
    exists|at: int| 0 <= at <= before.len() && after == #[trigger] before.insert(at, entry)
}

impl Reader {
    pub open spec fn wf(&self) -> bool {
        &&& self.header.shaped()
        &&& self.cache.wf()
        &&& self.intervals.wf()
        &&& 1 <= self.range_pages <= DIRECTORY_RANGE_PAGES
        &&& self.length <= MAX_OBJECT
    }

    /// How many payload places a reader of the header may have to remember.
    pub open spec fn interval_room(header: &Header) -> int {
        if header.ordered_large() {
            MAX_LEAF_RECORDS as int
        } else {
            header.leaf_count() * header.groups_spec()
        }
    }

    /// A reader of an object of `length` bytes whose header was admitted.
    pub fn new(header: Header, length: u64, range_pages: usize) -> (r: Reader)
        requires
            header.shaped(),
            1 <= range_pages <= DIRECTORY_RANGE_PAGES,
            length <= MAX_OBJECT,
        ensures
            r.wf(),
            r.header == header,
            r.length == length,
            r.range_pages == range_pages,
            r.intervals.capacity == Reader::interval_room(&header),
            r.intervals.entries@.len() == 0,
            r.cache@.len() == 0,
            r.logical_reads == 0,
            r.logical_read_limit == MAX_READS,
            !r.exhaustive_ordered_verify,
    {
        let capacity: usize = if header.ordered_large_payloads() {
            MAX_LEAF_RECORDS
        } else {
            let leaves: usize = header.leaves();
            let groups: usize = header.groups_per_tile();
            proof {
                assert(leaves * groups <= leaves * header.raw_metadata.bands@.len())
                    by (nonlinear_arith)
                    requires
                        groups <= header.raw_metadata.bands@.len(),
                        leaves >= 0,
                ;
                assert(0 <= leaves * groups) by (nonlinear_arith)
                    requires
                        leaves >= 0,
                        groups >= 0,
                ;
            }
            leaves * groups
        };
        Reader {
            header,
            length,
            range_pages,
            cache: PageCache::new(),
            intervals: Intervals::new(capacity),
            logical_reads: 0,
            logical_read_limit: MAX_READS,
            exhaustive_ordered_verify: false,
        }
    }

    /// Begin a complete verification. One of a local object may visit every record and payload;
    /// one of a remote object keeps its budget. What is returned is handed back at the end.
    pub fn begin_verification(&mut self, local: bool) -> (r: Result<ServingLimits, Error>)
        requires
            old(self).wf(),
        ensures
            final(self).wf(),
            final(self).header == old(self).header,
            final(self).length == old(self).length,
            final(self).cache == old(self).cache,
            final(self).intervals == old(self).intervals,
            final(self).range_pages == old(self).range_pages,
            final(self).logical_reads == old(self).logical_reads,
            if local && old(self).logical_reads + old(self).header.record_count() * (10
                * DIRECTORY_RANGE_PAGES + 1) + old(self).header.page_count() > usize::MAX {
                r == Err::<ServingLimits, Error>(Error::AuditBudget) && *final(self) == *old(self)
            } else {
                &&& r matches Ok(prior)
                &&& prior.logical_read_limit == old(self).logical_read_limit
                &&& prior.exhaustive_ordered_verify == old(self).exhaustive_ordered_verify
                &&& final(self).exhaustive_ordered_verify == old(self).header.ordered_large()
                &&& final(self).logical_read_limit == if local {
                    audit_limit(
                        &old(self).header,
                        old(self).logical_reads as int,
                        old(self).logical_read_limit as int,
                    )
                } else {
                    old(self).logical_read_limit as int
                }
            },
    {
        let prior = ServingLimits {
            logical_read_limit: self.logical_read_limit,
            exhaustive_ordered_verify: self.exhaustive_ordered_verify,
        };
        let limit: usize = match verification_limit(
            &self.header,
            local,
            self.logical_reads,
            self.logical_read_limit,
        ) {
            Ok(limit) => limit,
            Err(e) => return Err(e),
        };
        self.logical_read_limit = limit;
        self.exhaustive_ordered_verify = self.header.ordered_large_payloads();
        Ok(prior)
    }

    /// End a complete verification, whatever it found: ordinary reads are held to the limits that
    /// they had before it.
    pub fn end_verification(&mut self, prior: ServingLimits)
        ensures
            *final(self) == (Reader {
                logical_read_limit: prior.logical_read_limit,
                exhaustive_ordered_verify: prior.exhaustive_ordered_verify,
                ..*old(self)
            }),
    {
        self.logical_read_limit = prior.logical_read_limit;
        self.exhaustive_ordered_verify = prior.exhaustive_ordered_verify;
    }

    /// Count one read of the object against the budget.
    pub fn charge(&mut self) -> (r: Result<(), Error>)
        requires
            old(self).wf(),
        ensures
            final(self).wf(),
            final(self).header == old(self).header,
            final(self).length == old(self).length,
            final(self).cache == old(self).cache,
            final(self).intervals == old(self).intervals,
            final(self).logical_read_limit == old(self).logical_read_limit,
            final(self).range_pages == old(self).range_pages,
            final(self).exhaustive_ordered_verify == old(self).exhaustive_ordered_verify,
            if old(self).logical_reads < old(self).logical_read_limit {
                r is Ok && final(self).logical_reads == old(self).logical_reads + 1
            } else {
                r == Err::<(), Error>(Error::ReadBudget) && final(self).logical_reads == old(self).logical_reads
            },
    {
        if self.logical_reads >= self.logical_read_limit {
            return Err(Error::ReadBudget);
        }
        self.logical_reads = self.logical_reads + 1;
        Ok(())
    }

    /// Look up a record: an admitted one, or the directory range that holds it.
    pub fn descriptor(&mut self, id: usize) -> (r: Result<Lookup, Error>)
        requires
            old(self).wf(),
        ensures
            final(self).wf(),
            final(self).header == old(self).header,
            final(self).length == old(self).length,
            final(self).intervals == old(self).intervals,
            final(self).range_pages == old(self).range_pages,
            final(self).logical_reads == old(self).logical_reads,
            final(self).logical_read_limit == old(self).logical_read_limit,
            final(self).exhaustive_ordered_verify == old(self).exhaustive_ordered_verify,
            ({
                let page = id as int / RECORDS_PER_PAGE as int;
                let pages = old(self).cache@;
                if id >= old(self).header.record_count() {
                    r == Err::<Lookup, Error>(Error::RecordIndex) && final(self).cache@ == pages
                } else if cached(pages, page) {
                    let bytes = pages[place_of(pages, page)].1;
                    let record = bytes.subrange(
                        record_start(id as int),
                        record_start(id as int) + RECORD,
                    );
                    &&& final(self).cache@ == with_page(pages, page, bytes)
                    &&& match record_refusal(
                        &old(self).header,
                        id as int,
                        record,
                        old(self).length as int,
                    ) {
                        Some(e) => r == Err::<Lookup, Error>(e),
                        None => r matches Ok(Lookup::Record(found)) && found@ == record,
                    }
                } else {
                    let range = range_of(
                        page,
                        old(self).range_pages as int,
                        old(self).header.page_count(),
                    );
                    &&& final(self).cache@ == pages
                    &&& r matches Ok(Lookup::Range { first, offset, length })
                    &&& first == range.0
                    &&& offset == BOOTSTRAP + range.0 * PAGE
                    &&& length == range.1 * PAGE
                    &&& first <= page < first + range.1 <= old(self).header.page_count()
                }
            }),
    {
        let records: usize = self.header.records();
        if id >= records {
            return Err(Error::RecordIndex);
        }
        let page: usize = id / RECORDS_PER_PAGE;
        match self.cache.record(id) {
            Some(record) => {
                match validate_record(&self.header, id, record.as_slice(), self.length) {
                    Ok(_) => Ok(Lookup::Record(record)),
                    Err(e) => Err(e),
                }
            },
            None => {
                let pages: usize = self.header.pages();
                let cap: usize = self.range_pages;
                proof {
                    assert(page < (page + 1) * cap) by (nonlinear_arith)
                        requires
                            page >= 0,
                            cap >= 1,
                    ;
                    lemma_row_of(page as int, cap as int, page + 1);
                    crate::model::lemma_ceil_div(records as int, RECORDS_PER_PAGE as int);
                    assert(page * RECORDS_PER_PAGE <= id);
                    assert((page < pages) == (page * RECORDS_PER_PAGE < records));
                    assert(self.header.data_start() <= MAX_OBJECT);
                }
                let first: usize = page / cap * cap;
                let count: usize = if cap <= pages - first {
                    cap
                } else {
                    pages - first
                };
                proof {
                    assert(first * PAGE <= pages * PAGE);
                }
                Ok(
                    Lookup::Range {
                        first,
                        offset: BOOTSTRAP as u64 + first as u64 * PAGE as u64,
                        length: count * PAGE,
                    },
                )
            },
        }
    }

    /// What [`Reader::needs`] answers.
    pub open spec fn needs_of(&self, id: int) -> (Option<int>, Option<int>, Option<int>) {
        let n = self.header.raw_metadata.bands@.len() as int;
        let leader = self.header.canonical(id).0;
        if id / n >= self.header.leaf_count() {
            (None, None, None)
        } else {
            (
                if self.header.grouped_spec() && id != leader {
                    Some(leader)
                } else {
                    None
                },
                if self.header.ordered_large() {
                    self.header.previous(leader)
                } else {
                    None
                },
                if self.header.ordered_large() {
                    self.header.next(leader)
                } else {
                    None
                },
            )
        }
    }
}

proof fn lemma_leader_leads(header: &Header, id: int)
    requires
        header.shaped(),
        header.grouped_spec(),
        0 <= id,
        id / (header.raw_metadata.bands@.len() as int) < header.leaf_count(),
    ensures
        header.leads(header.canonical(id).0),
        header.canonical(header.canonical(id).0) == header.canonical(id),
        0 <= header.canonical(id).0 <= id,
{
    let n = header.raw_metadata.bands@.len() as int;
    assert(id < (id + 1) * n) by (nonlinear_arith)
        requires
            id >= 0,
            n >= 1,
    ;
    lemma_row_of(id, n, id + 1);
    crate::skv_header::groups_divide_the_bands(
        header.widths(),
        header.chunk_edge as int,
        header.band_group as int,
        id % n,
    );
    let g = header.group_spec(id % n);
    crate::index::lemma_row_major(id / n, g.0, n, id / n + 1);
    assert(crate::skv_header::group_of(
        header.widths(),
        header.chunk_edge as int,
        header.band_group as int,
        0,
        g.0,
    ) == g);
}

/// What admitting a leaf record is refused for before its place is noted: its group's
/// payload does not follow the one before it, or the one behind does not follow it.
pub open spec fn order_broken(
    reader: &Reader,
    leader: Seq<u8>,
    previous: Option<Seq<u8>>,
    next: Option<Seq<u8>>,
) -> bool {
    reader.header.ordered_large() && !(rec_begin(leader) == (match previous {
        Some(p) => payload_end(p),
        None => reader.header.data_start(),
    }) && payload_end(leader) == (match next {
        Some(p) => rec_begin(p),
        None => reader.length as int,
    }))
}

impl Reader {
    /// The records that a record is to be checked against.
    pub fn needs(&self, id: usize) -> (r: Needs)
        requires
            self.wf(),
            id < self.header.record_count(),
        ensures
            match r.leader {
                Some(i) => self.needs_of(id as int).0 == Some(i as int),
                None => self.needs_of(id as int).0 is None,
            },
            match r.previous {
                Some(i) => self.needs_of(id as int).1 == Some(i as int),
                None => self.needs_of(id as int).1 is None,
            },
            match r.next {
                Some(i) => self.needs_of(id as int).2 == Some(i as int),
                None => self.needs_of(id as int).2 is None,
            },
    {
        let nothing = Needs { leader: None, previous: None, next: None };
        let n: usize = self.header.bands();
        if id / n >= self.header.leaves() {
            return nothing;
        }
        let leader: usize = match self.header.canonical_group(id) {
            Ok((leader, _)) => leader,
            Err(_) => return nothing,
        };
        let mut needs = nothing;
        if self.header.grouped() && id != leader {
            needs.leader = Some(leader);
        }
        if self.header.ordered_large_payloads() {
            proof {
                assert(self.header.grouped_spec());
                lemma_leader_leads(&self.header, id as int);
            }
            match self.header.physical_neighbors(leader) {
                Ok((previous, next)) => {
                    needs.previous = previous;
                    needs.next = next;
                },
                Err(_) => return nothing,
            }
        }
        needs
    }

    /// Admit a record whose descriptor was admitted, together with the records it needs: a
    /// leaf's payload stands in its order, shares no byte with another that was visited, and
    /// a group's members name the payload of their leader.
    pub fn settle(
        &mut self,
        id: usize,
        record: &[u8],
        leader: Option<&[u8]>,
        previous: Option<&[u8]>,
        next: Option<&[u8]>,
    ) -> (r: Result<(), Error>)
        requires
            old(self).wf(),
            id < old(self).header.record_count(),
            record@.len() == RECORD,
            record_refusal(
                &old(self).header,
                id as int,
                record@,
                old(self).length as int,
            ) is None,
            leader is Some <==> old(self).needs_of(id as int).0 is Some,
            previous is Some <==> old(self).needs_of(id as int).1 is Some,
            next is Some <==> old(self).needs_of(id as int).2 is Some,
            leader matches Some(l) ==> l@.len() == RECORD && record_refusal(
                &old(self).header,
                old(self).needs_of(id as int).0->0,
                l@,
                old(self).length as int,
            ) is None,
            previous matches Some(p) ==> p@.len() == RECORD && record_refusal(
                &old(self).header,
                old(self).needs_of(id as int).1->0,
                p@,
                old(self).length as int,
            ) is None,
            next matches Some(p) ==> p@.len() == RECORD && record_refusal(
                &old(self).header,
                old(self).needs_of(id as int).2->0,
                p@,
                old(self).length as int,
            ) is None,
        ensures
            final(self).wf(),
            final(self).header == old(self).header,
            final(self).length == old(self).length,
            final(self).cache == old(self).cache,
            final(self).range_pages == old(self).range_pages,
            final(self).logical_reads == old(self).logical_reads,
            final(self).logical_read_limit == old(self).logical_read_limit,
            final(self).exhaustive_ordered_verify == old(self).exhaustive_ordered_verify,
            final(self).intervals.capacity == old(self).intervals.capacity,
            ({
                let n = old(self).header.raw_metadata.bands@.len() as int;
                let lead = match leader {
                    Some(l) => l@,
                    None => record@,
                };
                let begin = rec_begin(lead) as u64;
                let end = payload_end(lead) as u64;
                let lead_id = if leader is Some {
                    old(self).header.canonical(id as int).0 as usize
                } else {
                    id
                };
                let before = old(self).intervals.entries@;
                if id as int / n >= old(self).header.leaf_count() {
                    r is Ok && final(self).intervals.entries@ == before
                } else if order_broken(
                    old(self),
                    lead,
                    match previous {
                        Some(p) => Some(p@),
                        None => None,
                    },
                    match next {
                        Some(p) => Some(p@),
                        None => None,
                    },
                ) {
                    r == Err::<(), Error>(Error::PayloadOrder) && final(self).intervals.entries@
                        == before
                } else {
                    let quiet = old(self).header.ordered_large() && old(self).exhaustive_ordered_verify;
                    let known = quiet || before.contains((begin, end, lead_id));
                    let after = final(self).intervals.entries@;
                    if !known && overlaps(before, begin, end) {
                        r == Err::<(), Error>(Error::PayloadOverlap) && after == before
                    } else if !known && before.len() == old(self).intervals.capacity {
                        r == Err::<(), Error>(Error::PayloadBudget) && after == before
                    } else {
                        &&& if known {
                            after == before
                        } else {
                            noted(before, after, (begin, end, lead_id))
                        }
                        &&& r == (if leader is Some && !alias_of(record@, lead) {
                            Err::<(), Error>(Error::PayloadAlias)
                        } else {
                            Ok(())
                        })
                    }
                }
            }),
    {
        let n: usize = self.header.bands();
        if id / n >= self.header.leaves() {
            return Ok(());
        }
        let ghost nn = n as int;
        proof {
            if self.header.grouped_spec() {
                lemma_leader_leads(&self.header, id as int);
            }
        }
        let lead: &[u8] = match leader {
            Some(l) => l,
            None => record,
        };
        let lead_id: usize = match leader {
            Some(_) => match self.header.canonical_group(id) {
                Ok((first, _)) => first,
                Err(e) => return Err(e),
            },
            None => id,
        };
        proof {
            // A leader of a leaf is a leaf.
            assert(lead_id as int / nn < self.header.leaf_count());
            assert(record_refusal(&self.header, lead_id as int, lead@, self.length as int) is None);
        }
        let begin: u64 = u64_at(lead, 0);
        let end: u64 = begin + u32_at(lead, 8) as u64;
        if self.header.ordered_large_payloads() {
            let expected_begin: u64 = match previous {
                Some(p) => {
                    proof {
                        assert(self.header.previous(lead_id as int) is Some);
                        self.header.neighbors_are_mutual(lead_id as int);
                    }
                    u64_at(p, 0) + u32_at(p, 8) as u64
                },
                None => self.header.data_offset(),
            };
            let expected_end: u64 = match next {
                Some(p) => u64_at(p, 0),
                None => self.length,
            };
            if begin != expected_begin || end != expected_end {
                return Err(Error::PayloadOrder);
            }
        }
        let ghost before = self.intervals.entries@;
        if !(self.header.ordered_large_payloads() && self.exhaustive_ordered_verify) {
            match self.intervals.visit(begin, end, lead_id) {
                Ok(()) => {},
                Err(e) => return Err(e),
            }
        }
        if let Some(l) = leader {
            let same = same_bytes(
                vstd::slice::slice_subrange(record, 0, 28),
                vstd::slice::slice_subrange(l, 0, 28),
            ) && same_bytes(
                vstd::slice::slice_subrange(record, 32, 64),
                vstd::slice::slice_subrange(l, 32, 64),
            ) && same_bytes(
                vstd::slice::slice_subrange(record, 112, 128),
                vstd::slice::slice_subrange(l, 112, 128),
            );
            if !same {
                return Err(Error::PayloadAlias);
            }
        }
        Ok(())
    }
}

/// A verification that was begun and ended leaves ordinary reads the limits that they had before
/// it, whatever was read meanwhile.
pub proof fn verifying_keeps_the_serving_limits(
    before: Reader,
    during: Reader,
    after: Reader,
    prior: ServingLimits,
)
    requires
        prior.logical_read_limit == before.logical_read_limit,
        prior.exhaustive_ordered_verify == before.exhaustive_ordered_verify,
        after == (Reader {
            logical_read_limit: prior.logical_read_limit,
            exhaustive_ordered_verify: prior.exhaustive_ordered_verify,
            ..during
        }),
    ensures
        after.logical_read_limit == before.logical_read_limit,
        after.exhaustive_ordered_verify == before.exhaustive_ordered_verify,
        after.logical_reads == during.logical_reads,
{
}

} // verus!
