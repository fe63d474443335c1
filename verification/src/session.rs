//! What a session holds, what it may still take, and what is registered in it.
use vstd::prelude::*;

use crate::error::Error;
use crate::text::{byte_len, contains, same, starts_with, stands_at, occurs, utf8};

verus! {

/// Bytes that the registration of anything is charged with.
pub const ENTRY_BYTES: usize = 65536;

/// Conservative retained header, transport and bounded range-log allowance of an index. No values,
/// decoded windows or summary pages are retained by its handle.
pub const RETAINED_BYTES: usize = 8388608;

/// The least that a registered reader is charged with.
pub const READER_BYTES: usize = 16777216;

/// The most entries of one kind.
pub const MAX_ENTRIES: usize = 128;

/// What is registered under an identifier, the bytes that it holds, and what it was made with.
pub struct Entry {
    pub id: String,
    pub bytes: usize,
    pub settings: Vec<usize>,
    pub notes: Vec<String>,
}

/// What an entry was made with.
#[verifier::ext_equal]
pub ghost struct Detail {
    pub settings: Seq<usize>,
    pub notes: Seq<Seq<char>>,
}

/// An identifier, its bytes, and what it was made with.
pub type Row = (Seq<char>, int, Detail);

/// An entry that needs no more than its bytes.
pub open spec fn plain() -> Detail {
    Detail { settings: Seq::empty(), notes: Seq::empty() }
}

pub open spec fn texts(notes: Seq<String>) -> Seq<Seq<char>> {
    Seq::new(notes.len(), |i: int| notes[i]@)
}

impl Entry {
    pub open spec fn row(&self) -> Row {
        (
            self.id@,
            self.bytes as int,
            Detail { settings: self.settings@, notes: texts(self.notes@) },
        )
    }
}

/// Entries of one kind, each identifier once.
pub struct Table {
    pub entries: Vec<Entry>,
}

/// The identifiers of a table, with their bytes.
pub open spec fn listed(entries: Seq<Entry>) -> Seq<Row> {
    Seq::new(entries.len(), |i: int| entries[i].row())
}

/// An identifier stands at a place.
pub open spec fn stands(t: Seq<Row>, id: Seq<char>, i: int) -> bool {
    0 <= i < t.len() && t[i].0 == id
}

pub open spec fn keeps(t: Seq<Row>, id: Seq<char>) -> bool {
    exists|i: int| stands(t, id, i)
}

/// What is registered under an identifier.
pub open spec fn row_of(t: Seq<Row>, id: Seq<char>) -> Row {
    t[choose|i: int| stands(t, id, i)]
}

/// A table without an identifier.
pub open spec fn without(t: Seq<Row>, id: Seq<char>) -> Seq<Row> {
    if keeps(t, id) {
        t.remove(choose|i: int| stands(t, id, i))
    } else {
        t
    }
}

/// The bytes of all entries.
pub open spec fn total(t: Seq<Row>) -> int
    decreases t.len(),
{
    if t.len() == 0 {
        0
    } else {
        total(t.drop_last()) + t.last().1
    }
}

/// Each identifier stands once.
pub open spec fn once(t: Seq<Row>) -> bool {
    forall|i: int, j: int|
        0 <= i < t.len() && 0 <= j < t.len() && (#[trigger] t[i]).0 == (#[trigger] t[j]).0 ==> i == j
}

proof fn lemma_remove(t: Seq<Row>, i: int)
    requires
        0 <= i < t.len(),
    ensures
        total(t.remove(i)) == total(t) - t[i].1,
    decreases t.len(),
{
    if i == t.len() - 1 {
        assert(t.remove(i) =~= t.drop_last());
    } else {
        assert(t.remove(i).drop_last() =~= t.drop_last().remove(i));
        assert(t.remove(i).last() == t.last());
        lemma_remove(t.drop_last(), i);
    }
}

proof fn lemma_push(t: Seq<Row>, e: Row)
    ensures
        total(t.push(e)) == total(t) + e.1,
{
    assert(t.push(e).drop_last() =~= t);
}

/// Registering something and closing it again leaves a table as it was.
pub proof fn closing_undoes_registering(t: Seq<Row>, id: Seq<char>, bytes: int)
    requires
        !keeps(t, id),
    ensures
        without(t.push((id, bytes, plain())), id) == t,
{
    let more = t.push((id, bytes, plain()));
    assert(stands(more, id, t.len() as int));
    let i = choose|i: int| stands(more, id, i);
    assert(i == t.len()) by {
        if i < t.len() {
            assert(stands(t, id, i));
        }
    }
    assert(more.remove(i) =~= t);
}

/// A table in which one identifier has other settings.
pub open spec fn resettled(t: Seq<Row>, id: Seq<char>, settings: Seq<usize>) -> Seq<Row> {
    let i = choose|i: int| stands(t, id, i);
    t.update(i, (t[i].0, t[i].1, Detail { settings, notes: t[i].2.notes }))
}

proof fn lemma_same_bytes(a: Seq<Row>, b: Seq<Row>)
    requires
        a.len() == b.len(),
        forall|i: int| 0 <= i < a.len() ==> (#[trigger] a[i]).1 == b[i].1,
    ensures
        total(a) == total(b),
    decreases a.len(),
{
    if a.len() > 0 {
        assert forall|i: int| 0 <= i < a.len() - 1 implies (#[trigger] a.drop_last()[i]).1
            == b.drop_last()[i].1 by {
            assert(a[i].1 == b[i].1);
        }
        lemma_same_bytes(a.drop_last(), b.drop_last());
        assert(a[a.len() - 1].1 == b[a.len() - 1].1);
    }
}

impl Entry {
    fn copied_notes(&self) -> (r: Vec<String>)
        ensures
            texts(r@) == texts(self.notes@),
    {
        let mut r: Vec<String> = Vec::new();
        let mut i: usize = 0;
        while i < self.notes.len()
            invariant
                i <= self.notes@.len(),
                r@.len() == i,
                forall|k: int| 0 <= k < i ==> (#[trigger] r@[k])@ == self.notes@[k]@,
            decreases self.notes@.len() - i,
        {
            r.push(self.notes[i].clone());
            i += 1;
        }
        assert(texts(r@) =~= texts(self.notes@));
        r
    }
}

impl Table {
    pub open spec fn view(&self) -> Seq<Row> {
        listed(self.entries@)
    }

    pub open spec fn wf(&self) -> bool {
        self.entries@.len() <= MAX_ENTRIES && once(self@)
    }

    pub fn new() -> (r: Self)
        ensures
            r.wf(),
            r@ == Seq::<Row>::empty(),
    {
        let r = Table { entries: Vec::new() };
        assert(r@ =~= Seq::<Row>::empty());
        r
    }

    fn find(&self, id: &str) -> (r: Option<usize>)
        ensures
            match r {
                Some(i) => stands(self@, id@, i as int),
                None => !keeps(self@, id@),
            },
    {
        let mut i: usize = 0;
        while i < self.entries.len()
            invariant
                i <= self.entries@.len(),
                forall|k: int| 0 <= k < i ==> !#[trigger] stands(self@, id@, k),
            decreases self.entries.len() - i,
        {
            if same(self.entries[i].id.as_str(), id) {
                assert(stands(self@, id@, i as int));
                return Some(i);
            }
            i += 1;
        }
        None
    }

    pub fn contains(&self, id: &str) -> (r: bool)
        ensures
            r == keeps(self@, id@),
    {
        match self.find(id) {
            Some(i) => {
                assert(stands(self@, id@, i as int));
                true
            },
            None => false,
        }
    }

    pub fn len(&self) -> (r: usize)
        ensures
            r == self@.len(),
    {
        self.entries.len()
    }

    fn insert(&mut self, id: String, bytes: usize)
        requires
            old(self).wf(),
            !keeps(old(self)@, id@),
            old(self)@.len() < MAX_ENTRIES,
        ensures
            final(self).wf(),
            final(self)@ == old(self)@.push((id@, bytes as int, plain())),
            total(final(self)@) == total(old(self)@) + bytes,
    {
        self.insert_with(id, bytes, Vec::new(), Vec::new());
        assert(texts(Seq::<String>::empty()) =~= Seq::<Seq<char>>::empty());
    }

    fn insert_with(&mut self, id: String, bytes: usize, settings: Vec<usize>, notes: Vec<String>)
        requires
            old(self).wf(),
            !keeps(old(self)@, id@),
            old(self)@.len() < MAX_ENTRIES,
        ensures
            final(self).wf(),
            final(self)@ == old(self)@.push(
                (
                    id@,
                    bytes as int,
                    Detail { settings: settings@, notes: texts(notes@) },
                ),
            ),
            total(final(self)@) == total(old(self)@) + bytes,
    {
        let ghost before = self@;
        let ghost row: Row = (
            id@,
            bytes as int,
            Detail { settings: settings@, notes: texts(notes@) },
        );
        self.entries.push(Entry { id, bytes, settings, notes });
        assert(self@ =~= before.push(row));
        proof {
            lemma_push(before, row);
            assert forall|i: int, j: int|
                0 <= i < self@.len() && 0 <= j < self@.len() && (#[trigger] self@[i]).0 == (
                #[trigger] self@[j]).0 implies i == j by {
                if i < before.len() && j < before.len() {
                    assert(before[i].0 == before[j].0);
                } else if i < before.len() {
                    assert(stands(before, id@, i));
                } else if j < before.len() {
                    assert(stands(before, id@, j));
                }
            }
        }
    }

    /// What is registered under an identifier.
    pub fn entry(&self, id: &str) -> (r: Option<&Entry>)
        requires
            self.wf(),
        ensures
            match r {
                Some(e) => keeps(self@, id@) && e.row() == row_of(self@, id@),
                None => !keeps(self@, id@),
            },
    {
        match self.find(id) {
            None => None,
            Some(i) => {
                proof {
                    assert(stands(self@, id@, i as int));
                    let k = choose|k: int| stands(self@, id@, k);
                    assert(self@[i as int].0 == self@[k].0);
                    assert(self@[i as int] == self.entries@[i as int].row());
                }
                Some(&self.entries[i])
            },
        }
    }

    /// Give what is registered under an identifier other settings.
    fn set(&mut self, id: &str, settings: Vec<usize>)
        requires
            old(self).wf(),
            keeps(old(self)@, id@),
        ensures
            final(self).wf(),
            final(self)@ == resettled(old(self)@, id@, settings@),
            total(final(self)@) == total(old(self)@),
    {
        match self.find(id) {
            None => {},
            Some(i) => {
                let ghost before = self@;
                let ghost old_entry = self.entries@[i as int];
                let notes: Vec<String> = self.entries[i].copied_notes();
                let entry = Entry {
                    id: self.entries[i].id.clone(),
                    bytes: self.entries[i].bytes,
                    settings,
                    notes,
                };
                self.entries.set(i, entry);
                proof {
                    assert(stands(before, id@, i as int));
                    let k = choose|k: int| stands(before, id@, k);
                    assert(before[i as int].0 == before[k].0);
                    assert(before[i as int] == old_entry.row());
                    assert(self@ =~= resettled(before, id@, settings@));
                    lemma_same_bytes(before, self@);
                    assert forall|a: int, b: int|
                        0 <= a < self@.len() && 0 <= b < self@.len() && (#[trigger] self@[a]).0 == (
                        #[trigger] self@[b]).0 implies a == b by {
                        assert(before[a].0 == self@[a].0 && before[b].0 == self@[b].0);
                    }
                }
            },
        }
    }

    fn remove(&mut self, id: &str) -> (r: bool)
        requires
            old(self).wf(),
        ensures
            final(self).wf(),
            r == keeps(old(self)@, id@),
            final(self)@ == without(old(self)@, id@),
            total(final(self)@) <= total(old(self)@) || !r,
    {
        match self.find(id) {
            None => false,
            Some(i) => {
                let ghost before = self@;
                let entry = self.entries.remove(i);
                proof {
                    assert(stands(before, id@, i as int));
                    let k = choose|k: int| stands(before, id@, k);
                    assert(before[i as int].0 == before[k].0);
                    assert(self@ =~= before.remove(i as int));
                    lemma_remove(before, i as int);
                    assert forall|a: int, b: int|
                        0 <= a < self@.len() && 0 <= b < self@.len() && (#[trigger] self@[a]).0 == (
                        #[trigger] self@[b]).0 implies a == b by {
                        let a0 = if a < i {
                            a
                        } else {
                            a + 1
                        };
                        let b0 = if b < i {
                            b
                        } else {
                            b + 1
                        };
                        assert(before[a0].0 == before[b0].0);
                    }
                }
                true
            },
        }
    }

    fn sum(&self) -> (r: u128)
        requires
            self.entries@.len() <= MAX_ENTRIES,
        ensures
            r == total(self@),
            r <= 128 * 0xffff_ffff_ffff_ffff,
    {
        let mut sum: u128 = 0;
        let mut i: usize = 0;
        assert(self@.take(0) =~= Seq::<Row>::empty());
        while i < self.entries.len()
            invariant
                i <= self.entries@.len(),
                self.entries@.len() <= MAX_ENTRIES,
                sum == total(self@.take(i as int)),
                sum <= i * 0xffff_ffff_ffff_ffff,
            decreases self.entries.len() - i,
        {
            assert(self@.take(i + 1).drop_last() =~= self@.take(i as int));
            assert(self@.take(i + 1).last() == self@[i as int]);
            sum = sum + self.entries[i].bytes as u128;
            i += 1;
        }
        assert(self@.take(i as int) =~= self@);
        sum
    }
}

/// An index that is kept open.
pub struct RetainedIndex {
    pub id: String,
    pub source: String,
    pub read_memory_bytes: usize,
}

/// Retained indexes by their identifiers, their sources, and what their queries read.
pub open spec fn indexes_of(indexes: Seq<RetainedIndex>) -> Seq<(Seq<char>, Seq<char>, int)> {
    Seq::new(
        indexes.len(),
        |i: int| (indexes[i].id@, indexes[i].source@, indexes[i].read_memory_bytes as int),
    )
}

/// What keeping a preparation did.
#[derive(Clone, Copy, Debug, PartialEq, Eq, Structural)]
pub enum Kept {
    Fresh,
    /// It was there already, and holds so many bytes.
    Already { bytes: usize },
}

fn same_settings(a: &Vec<usize>, b: &Vec<usize>) -> (r: bool)
    ensures
        r == (a@ == b@),
{
    if a.len() != b.len() {
        return false;
    }
    let mut i: usize = 0;
    while i < a.len()
        invariant
            i <= a@.len(),
            a@.len() == b@.len(),
            forall|k: int| 0 <= k < i ==> a@[k] == b@[k],
        decreases a@.len() - i,
    {
        if a[i] != b[i] {
            return false;
        }
        i += 1;
    }
    assert(a@ =~= b@);
    true
}

/// What a session holds.
pub struct Session {
    pub max_bytes: usize,
    pub transient_reserve: usize,
    pub sources: Table,
    pub plans: Table,
    pub indexes: Table,
    pub hierarchies: Table,
    pub cumulative_full: Table,
    pub cumulative_blocked: Table,
    pub files: Table,
    pub readers: Table,
    pub jobs: Table,
    pub exactextract_jobs: Table,
    pub job_provenance: Table,
    pub retained_indexes: Vec<RetainedIndex>,
    pub cache_limit: usize,
    pub cache_bytes: usize,
}

/// What is registered in a session, apart from its retained indexes.
pub ghost struct Registered {
    pub sources: Seq<Row>,
    pub plans: Seq<Row>,
    pub indexes: Seq<Row>,
    pub hierarchies: Seq<Row>,
    pub cumulative_full: Seq<Row>,
    pub cumulative_blocked: Seq<Row>,
    pub files: Seq<Row>,
    pub readers: Seq<Row>,
    pub jobs: Seq<Row>,
    pub exactextract_jobs: Seq<Row>,
    pub job_provenance: Seq<Row>,
    pub retained: Seq<(Seq<char>, Seq<char>, int)>,
    pub cache_limit: int,
    pub cache_bytes: int,
    pub transient: int,
    pub max: int,
}

/// A session in which nothing stands.
pub open spec fn nothing_registered(max: int) -> Registered {
    let none = Seq::<Row>::empty();
    Registered {
        sources: none,
        plans: none,
        indexes: none,
        hierarchies: none,
        cumulative_full: none,
        cumulative_blocked: none,
        files: none,
        readers: none,
        jobs: none,
        exactextract_jobs: none,
        job_provenance: none,
        retained: Seq::empty(),
        cache_limit: 0,
        cache_bytes: 0,
        transient: 0,
        max,
    }
}

pub open spec fn larger(a: int, b: int) -> int {
    if a < b {
        b
    } else {
        a
    }
}

/// What a file is registered with: where it is, and its signature.
pub open spec fn file_detail(path: Seq<char>, signature: Seq<char>) -> Detail {
    Detail { settings: Seq::empty(), notes: seq![path, signature] }
}

/// Every file is registered with where it is and its signature.
pub open spec fn files_shaped(files: Seq<Row>) -> bool {
    forall|i: int| 0 <= i < files.len() ==> (#[trigger] files[i]).2.notes.len() == 2
}

proof fn lemma_file_shaped(files: Seq<Row>, id: Seq<char>)
    requires
        files_shaped(files),
        keeps(files, id),
    ensures
        row_of(files, id).2.notes.len() == 2,
{
    let i = choose|i: int| stands(files, id, i);
    assert(files[i].2.notes.len() == 2);
}

/// A table of files without one is one of files.
proof fn lemma_files_without(files: Seq<Row>, id: Seq<char>)
    requires
        files_shaped(files),
    ensures
        files_shaped(without(files, id)),
{
    if keeps(files, id) {
        let i = choose|i: int| stands(files, id, i);
        let left = files.remove(i);
        assert forall|k: int| 0 <= k < left.len() implies (#[trigger] left[k]).2.notes.len() == 2 by {
            let from = if k < i {
                k
            } else {
                k + 1
            };
            assert(left[k] == files[from]);
        }
    }
}

/// A registered file was opened.
pub open spec fn file_opened(files: Seq<Row>, id: Seq<char>) -> bool {
    row_of(files, id).2.settings.len() > 0
}

/// What preparing a raster leads to where it was prepared before: nothing more is done under the
/// same settings, and others are refused.
pub open spec fn prior(table: Seq<Row>, id: Seq<char>, settings: Seq<usize>, e: Error) -> Option<
    Result<Kept, Error>,
> {
    if !keeps(table, id) {
        None
    } else if row_of(table, id).2.settings == settings {
        Some(Ok(Kept::Already { bytes: row_of(table, id).1 as usize }))
    } else {
        Some(Err(e))
    }
}

/// The bytes that a session is charged with.
pub open spec fn charged(s: Registered) -> int {
    total(s.sources) + total(s.indexes) + total(s.hierarchies) + total(s.cumulative_full) + total(
        s.cumulative_blocked,
    ) + total(s.plans) + larger(s.cache_limit, s.cache_bytes) + total(s.jobs) + total(s.readers)
        + total(s.exactextract_jobs) + s.job_provenance.len() * ENTRY_BYTES + s.retained.len() * (
    RETAINED_BYTES + ENTRY_BYTES) + (s.files.len() + s.sources.len() + s.plans.len()
        + s.indexes.len() + s.hierarchies.len() + s.cumulative_full.len()
        + s.cumulative_blocked.len()) * ENTRY_BYTES
}

/// The bytes that a session may still take.
pub open spec fn left_of(s: Registered) -> int {
    larger(larger(s.max - charged(s), 0) - s.transient, 0)
}

/// A retained index of an identifier.
pub open spec fn retained_at(s: Registered, id: Seq<char>, i: int) -> bool {
    0 <= i < s.retained.len() && s.retained[i].0 == id
}

/// Why a query over a retained index is not admitted.
pub open spec fn retained_refusal(s: Registered, handle: Seq<char>, source: Seq<char>) -> Option<
    Error,
> {
    if !has_retained(s, handle) {
        Some(Error::UnknownIndex)
    } else if retained_of(s, handle).1 != source {
        Some(Error::OtherSource)
    } else if retained_of(s, handle).2 + 134217728 > left_of(s) {
        Some(Error::IndexQueryMemory)
    } else {
        None
    }
}

/// Each retained index stands once.
pub open spec fn retained_once(indexes: Seq<RetainedIndex>) -> bool {
    forall|i: int, j: int|
        0 <= i < indexes.len() && 0 <= j < indexes.len() && (#[trigger] indexes[i]).id@ == (
        #[trigger] indexes[j]).id@ ==> i == j
}

/// The retained index of an identifier.
pub open spec fn retained_of(s: Registered, id: Seq<char>) -> (Seq<char>, Seq<char>, int) {
    s.retained[choose|i: int| retained_at(s, id, i)]
}

pub open spec fn has_retained(s: Registered, id: Seq<char>) -> bool {
    exists|i: int| retained_at(s, id, i)
}

impl Session {
    pub open spec fn view(&self) -> Registered {
        Registered {
            sources: self.sources@,
            plans: self.plans@,
            indexes: self.indexes@,
            hierarchies: self.hierarchies@,
            cumulative_full: self.cumulative_full@,
            cumulative_blocked: self.cumulative_blocked@,
            files: self.files@,
            readers: self.readers@,
            jobs: self.jobs@,
            exactextract_jobs: self.exactextract_jobs@,
            job_provenance: self.job_provenance@,
            retained: indexes_of(self.retained_indexes@),
            cache_limit: self.cache_limit as int,
            cache_bytes: self.cache_bytes as int,
            transient: self.transient_reserve as int,
            max: self.max_bytes as int,
        }
    }

    pub open spec fn wf(&self) -> bool {
        &&& self.sources.wf()
        &&& self.plans.wf()
        &&& self.indexes.wf()
        &&& self.hierarchies.wf()
        &&& self.cumulative_full.wf()
        &&& self.cumulative_blocked.wf()
        &&& self.files.wf()
        &&& self.readers.wf()
        &&& self.jobs.wf()
        &&& self.exactextract_jobs.wf()
        &&& self.job_provenance.wf()
        &&& self.retained_indexes@.len() <= 16
        &&& retained_once(self.retained_indexes@)
        &&& files_shaped(self.files@)
    }

    pub fn new(max_bytes: usize) -> (r: Self)
        ensures
            r.wf(),
            charged(r@) == 0,
            r@.max == max_bytes,
            r@.transient == 0,
            r@ == nothing_registered(max_bytes as int),
    {
        let r = Session {
            max_bytes,
            transient_reserve: 0,
            sources: Table::new(),
            plans: Table::new(),
            indexes: Table::new(),
            hierarchies: Table::new(),
            cumulative_full: Table::new(),
            cumulative_blocked: Table::new(),
            files: Table::new(),
            readers: Table::new(),
            jobs: Table::new(),
            exactextract_jobs: Table::new(),
            job_provenance: Table::new(),
            retained_indexes: Vec::new(),
            cache_limit: 0,
            cache_bytes: 0,
        };
        assert(r@.retained =~= Seq::<(Seq<char>, Seq<char>, int)>::empty());
        r
    }

    /// The bytes that the session is charged with.
    pub fn bytes(&self) -> (r: u128)
        requires
            self.wf(),
        ensures
            r == charged(self@),
    {
        let cache: u128 = if self.cache_limit < self.cache_bytes {
            self.cache_bytes as u128
        } else {
            self.cache_limit as u128
        };
        let entries: u128 = self.files.len() as u128 + self.sources.len() as u128
            + self.plans.len() as u128 + self.indexes.len() as u128 + self.hierarchies.len() as u128
            + self.cumulative_full.len() as u128 + self.cumulative_blocked.len() as u128;
        self.sources.sum() + self.indexes.sum() + self.hierarchies.sum()
            + self.cumulative_full.sum() + self.cumulative_blocked.sum() + self.plans.sum() + cache
            + self.jobs.sum() + self.readers.sum() + self.exactextract_jobs.sum()
            + self.job_provenance.len() as u128 * 65536 + self.retained_indexes.len() as u128
            * 8454144 + entries * 65536
    }

    /// The bytes that the session may still take.
    pub fn available(&self) -> (r: usize)
        requires
            self.wf(),
        ensures
            r == left_of(self@),
    {
        let used: u128 = self.bytes();
        let max: u128 = self.max_bytes as u128;
        let reserve: u128 = self.transient_reserve as u128;
        let free: u128 = if used < max {
            (max - used) as u128
        } else {
            0
        };
        if reserve < free {
            (free - reserve) as usize
        } else {
            0
        }
    }

    /// The session may take so many bytes, or is refused with `e`.
    pub fn needs(&self, bytes: usize, e: Error) -> (r: Result<(), Error>)
        requires
            self.wf(),
        ensures
            r == (if left_of(self@) >= bytes {
                Ok::<(), Error>(())
            } else {
                Err(e)
            }),
    {
        if self.available() >= bytes {
            Ok(())
        } else {
            Err(e)
        }
    }

    /// A registered reader.
    pub fn reader(&self, id: &str) -> (r: Result<(), Error>)
        ensures
            r == (if keeps(self@.readers, id@) {
                Ok::<(), Error>(())
            } else {
                Err(Error::UnknownReader)
            }),
    {
        if self.readers.contains(id) {
            Ok(())
        } else {
            Err(Error::UnknownReader)
        }
    }

    /// What a session must leave free before a source is opened.
    pub open spec fn opening_bytes(cache_bytes: int) -> int {
        33554432 + if cache_bytes > 8388608 {
            cache_bytes - 8388608
        } else {
            0
        }
    }

    /// A source may be opened under an identifier.
    pub fn check_register_source(&self, id: &str, cache_bytes: usize) -> (r: Result<(), Error>)
        requires
            self.wf(),
        ensures
            r == (if keeps(self@.readers, id@) || keeps(self@.sources, id@) || self@.readers.len() >= 32 {
                Err::<(), Error>(Error::ReaderCount)
            } else if left_of(self@) < Self::opening_bytes(cache_bytes as int) {
                Err(Error::ReaderMemory)
            } else {
                Ok(())
            }),
    {
        if self.readers.contains(id) || self.sources.contains(id) || self.readers.len() >= 32 {
            return Err(Error::ReaderCount);
        }
        let beyond: u128 = if cache_bytes > 8388608 {
            (cache_bytes - 8388608) as u128
        } else {
            0
        };
        if (self.available() as u128) < 33554432 + beyond {
            return Err(Error::ReaderMemory);
        }
        Ok(())
    }

    /// Take in an opened source, which is charged with what it retains, and with a least amount.
    pub fn add_source(&mut self, id: String, retained: usize) -> (r: Result<(), Error>)
        requires
            old(self).wf(),
            !keeps(old(self)@.readers, id@),
            old(self)@.readers.len() < 32,
        ensures
            final(self).wf(),
            ({
                let bytes = larger(retained as int, READER_BYTES as int);
                if bytes > left_of(old(self)@) {
                    r == Err::<(), Error>(Error::SourceCapacity) && final(self)@ == old(self)@
                } else {
                    &&& r is Ok
                    &&& final(self)@ == (Registered {
                        readers: old(self)@.readers.push((id@, bytes, plain())),
                        ..old(self)@
                    })
                    &&& charged(final(self)@) == charged(old(self)@) + bytes
                    &&& charged(final(self)@) <= final(self)@.max
                }
            }),
    {
        let bytes: usize = if retained < READER_BYTES {
            READER_BYTES
        } else {
            retained
        };
        if bytes > self.available() {
            return Err(Error::SourceCapacity);
        }
        self.readers.insert(id, bytes);
        Ok(())
    }

    pub fn close_source(&mut self, id: &str) -> (r: Result<(), Error>)
        requires
            old(self).wf(),
        ensures
            final(self).wf(),
            r == (if keeps(old(self)@.readers, id@) {
                Ok::<(), Error>(())
            } else {
                Err(Error::UnknownReader)
            }),
            final(self)@ == (Registered {
                readers: without(old(self)@.readers, id@),
                ..old(self)@
            }),
    {
        if self.readers.remove(id) {
            Ok(())
        } else {
            Err(Error::UnknownReader)
        }
    }

    fn find_retained(&self, id: &str) -> (r: Option<usize>)
        ensures
            match r {
                Some(i) => retained_at(self@, id@, i as int),
                None => !has_retained(self@, id@),
            },
    {
        let mut i: usize = 0;
        while i < self.retained_indexes.len()
            invariant
                i <= self.retained_indexes@.len(),
                forall|k: int| 0 <= k < i ==> !#[trigger] retained_at(self@, id@, k),
            decreases self.retained_indexes.len() - i,
        {
            if same(self.retained_indexes[i].id.as_str(), id) {
                assert(retained_at(self@, id@, i as int));
                return Some(i);
            }
            i += 1;
        }
        None
    }

    /// An index is kept under an identifier.
    pub fn retains(&self, id: &str) -> (r: bool)
        ensures
            r == has_retained(self@, id@),
    {
        match self.find_retained(id) {
            Some(i) => {
                assert(retained_at(self@, id@, i as int));
                true
            },
            None => false,
        }
    }

    /// The session may keep one more index, under an identifier that it does not keep yet.
    pub fn may_retain(&self, id: &str) -> (r: Result<(), Error>)
        requires
            self.wf(),
        ensures
            r == (if has_retained(self@, id@) || self@.retained.len() >= 16 {
                Err::<(), Error>(Error::IndexCount)
            } else if left_of(self@) < RETAINED_BYTES + ENTRY_BYTES {
                Err(Error::RetainedIndexMemory)
            } else {
                Ok(())
            }),
    {
        if self.retains(id) || self.retained_indexes.len() >= 16 {
            return Err(Error::IndexCount);
        }
        self.needs(RETAINED_BYTES + ENTRY_BYTES, Error::RetainedIndexMemory)
    }

    /// Keep an index whose boundary cells come from its original source.
    pub fn add_index(&mut self, id: String, source: String, read_memory_bytes: usize, original: bool) -> (r:
        Result<(), Error>)
        requires
            old(self).wf(),
            old(self)@.retained.len() < 16,
            !has_retained(old(self)@, id@),
        ensures
            final(self).wf(),
            if !original {
                r == Err::<(), Error>(Error::RetainedBoundary) && final(self)@ == old(self)@
            } else {
                &&& r is Ok
                &&& final(self)@ == (Registered {
                    retained: old(self)@.retained.push((id@, source@, read_memory_bytes as int)),
                    ..old(self)@
                })
                &&& charged(final(self)@) == charged(old(self)@) + RETAINED_BYTES + ENTRY_BYTES
            },
    {
        if !original {
            return Err(Error::RetainedBoundary);
        }
        let ghost before = self@;
        let ghost kept = self.retained_indexes@;
        self.retained_indexes.push(RetainedIndex { id, source, read_memory_bytes });
        proof {
            assert(self@.retained =~= before.retained.push(
                (id@, source@, read_memory_bytes as int),
            ));
            let all = self.retained_indexes@;
            assert forall|i: int, j: int|
                0 <= i < all.len() && 0 <= j < all.len() && (#[trigger] all[i]).id@ == (
                #[trigger] all[j]).id@ implies i == j by {
                if i < before.retained.len() && j < before.retained.len() {
                    assert(kept[i].id@ == kept[j].id@);
                } else if i < before.retained.len() {
                    assert(retained_at(before, id@, i));
                } else if j < before.retained.len() {
                    assert(retained_at(before, id@, j));
                }
            }
        }
        Ok(())
    }

    pub fn close_index(&mut self, id: &str) -> (r: Result<(), Error>)
        requires
            old(self).wf(),
        ensures
            final(self).wf(),
            if has_retained(old(self)@, id@) {
                &&& r is Ok
                &&& exists|i: int| #[trigger]
                    retained_at(old(self)@, id@, i) && final(self)@ == (Registered {
                        retained: old(self)@.retained.remove(i),
                        ..old(self)@
                    })
            } else {
                r == Err::<(), Error>(Error::UnknownIndex) && final(self)@ == old(self)@
            },
    {
        match self.find_retained(id) {
            None => Err(Error::UnknownIndex),
            Some(i) => {
                let ghost before = self@;
                let ghost kept = self.retained_indexes@;
                let gone = self.retained_indexes.remove(i);
                proof {
                    assert(retained_at(before, id@, i as int));
                    let left = self.retained_indexes@;
                    assert(self@.retained =~= before.retained.remove(i as int));
                    assert forall|a: int, b: int|
                        0 <= a < left.len() && 0 <= b < left.len() && (#[trigger] left[a]).id@ == (
                        #[trigger] left[b]).id@ implies a == b by {
                        let a0 = if a < i {
                            a
                        } else {
                            a + 1
                        };
                        let b0 = if b < i {
                            b
                        } else {
                            b + 1
                        };
                        assert(kept[a0].id@ == kept[b0].id@);
                    }
                }
                Ok(())
            },
        }
    }

    /// A query over a retained index is the one of its own source, and fits the session.
    pub fn check_retained_query(&self, handle: &str, source: &str) -> (r: Result<usize, Error>)
        requires
            self.wf(),
        ensures
            match retained_refusal(self@, handle@, source@) {
                Some(e) => r == Err::<usize, Error>(e),
                None => r matches Ok(i) && retained_at(self@, handle@, i as int),
            },
    {
        match self.find_retained(handle) {
            None => Err(Error::UnknownIndex),
            Some(i) => {
                let index = &self.retained_indexes[i];
                proof {
                    assert(retained_at(self@, handle@, i as int));
                    let k = choose|k: int| retained_at(self@, handle@, k);
                    assert(self.retained_indexes@[i as int].id@ == self.retained_indexes@[k].id@);
                }
                if !same(index.source.as_str(), source) {
                    return Err(Error::OtherSource);
                }
                if index.read_memory_bytes as u128 + 134217728 > self.available() as u128 {
                    return Err(Error::IndexQueryMemory);
                }
                Ok(i)
            },
        }
    }

    /// A job may be started under an identifier.
    pub fn check_start_job(&self, id: &str) -> (r: Result<(), Error>)
        ensures
            r == (if keeps(self@.jobs, id@) || keeps(self@.exactextract_jobs, id@) || self@.jobs.len()
                + self@.exactextract_jobs.len() >= 8 {
                Err::<(), Error>(Error::JobCount)
            } else {
                Ok(())
            }),
    {
        let running: u128 = self.jobs.len() as u128 + self.exactextract_jobs.len() as u128;
        if self.jobs.contains(id) || self.exactextract_jobs.contains(id) || running >= 8 {
            Err(Error::JobCount)
        } else {
            Ok(())
        }
    }

    /// Take in a job of the native engine, and where its answers come from.
    pub fn add_job(&mut self, id: String, reservation: usize) -> (r: Result<(), Error>)
        requires
            old(self).wf(),
            !keeps(old(self)@.jobs, id@),
            !keeps(old(self)@.job_provenance, id@),
            old(self)@.jobs.len() < 8,
        ensures
            final(self).wf(),
            if old(self)@.job_provenance.len() >= MAX_ENTRIES {
                r == Err::<(), Error>(Error::TableFull) && final(self)@ == old(self)@
            } else {
                &&& r is Ok
                &&& final(self)@ == (Registered {
                    jobs: old(self)@.jobs.push((id@, reservation as int, plain())),
                    job_provenance: old(self)@.job_provenance.push((id@, 0, plain())),
                    ..old(self)@
                })
            },
    {
        if self.job_provenance.len() >= MAX_ENTRIES {
            return Err(Error::TableFull);
        }
        let copy = id.clone();
        self.jobs.insert(id, reservation);
        self.job_provenance.insert(copy, 0);
        Ok(())
    }

    /// Take in a job of the exact extraction engine.
    pub fn add_exactextract_job(&mut self, id: String, reservation: usize)
        requires
            old(self).wf(),
            !keeps(old(self)@.exactextract_jobs, id@),
            old(self)@.exactextract_jobs.len() < 8,
        ensures
            final(self).wf(),
            final(self)@ == (Registered {
                exactextract_jobs: old(self)@.exactextract_jobs.push((id@, reservation as int, plain())),
                ..old(self)@
            }),
    {
        self.exactextract_jobs.insert(id, reservation);
    }

    pub fn close_job(&mut self, id: &str) -> (r: Result<(), Error>)
        requires
            old(self).wf(),
        ensures
            final(self).wf(),
            r == (if keeps(old(self)@.jobs, id@) || keeps(old(self)@.exactextract_jobs, id@) {
                Ok::<(), Error>(())
            } else {
                Err(Error::UnknownJob)
            }),
            final(self)@ == (Registered {
                jobs: without(old(self)@.jobs, id@),
                exactextract_jobs: without(old(self)@.exactextract_jobs, id@),
                job_provenance: without(old(self)@.job_provenance, id@),
                ..old(self)@
            }),
    {
        let native = self.jobs.remove(id);
        let extraction = self.exactextract_jobs.remove(id);
        let noted = self.job_provenance.remove(id);
        if native || extraction {
            Ok(())
        } else {
            Err(Error::UnknownJob)
        }
    }

    /// What registering a file is refused for.
    pub open spec fn file_refusal(&self, id: Seq<char>, path: Seq<char>) -> Option<Error> {
        if utf8(id).len() > 1024 || utf8(path).len() > 4096 {
            Some(Error::FileIdentity)
        } else if self@.files.len() >= 8 {
            Some(Error::FileCount)
        } else if keeps(self@.files, id) {
            Some(Error::FileExists)
        } else if stands_at(utf8(path), utf8("/vsi"@), 0) || occurs(utf8(path), utf8("://"@)) {
            Some(Error::FilePath)
        } else if left_of(self@) < ENTRY_BYTES {
            Some(Error::FileMetadata)
        } else {
            None
        }
    }

    /// A regular local file may be registered.
    pub fn check_register_file(&self, id: &str, path: &str) -> (r: Result<(), Error>)
        requires
            self.wf(),
        ensures
            r == (match self.file_refusal(id@, path@) {
                Some(e) => Err::<(), Error>(e),
                None => Ok(()),
            }),
    {
        if byte_len(id) > 1024 || byte_len(path) > 4096 {
            return Err(Error::FileIdentity);
        }
        if self.files.len() >= 8 {
            return Err(Error::FileCount);
        }
        if self.files.contains(id) {
            return Err(Error::FileExists);
        }
        if starts_with(path, "/vsi") || contains(path, "://") {
            return Err(Error::FilePath);
        }
        self.needs(ENTRY_BYTES, Error::FileMetadata)
    }

    /// Register a regular local file under the signature that it has now. It is opened when it is
    /// first asked for.
    pub fn register_file(&mut self, id: String, path: String, signature: String) -> (r: Result<
        (),
        Error,
    >)
        requires
            old(self).wf(),
        ensures
            final(self).wf(),
            match old(self).file_refusal(id@, path@) {
                Some(e) => r == Err::<(), Error>(e) && final(self)@ == old(self)@,
                None => {
                    &&& r is Ok
                    &&& final(self)@ == (Registered {
                        files: old(self)@.files.push((id@, 0, file_detail(path@, signature@))),
                        ..old(self)@
                    })
                    &&& charged(final(self)@) == charged(old(self)@) + ENTRY_BYTES
                    &&& charged(final(self)@) <= final(self)@.max
                },
            },
    {
        self.check_register_file(id.as_str(), path.as_str())?;
        let mut notes: Vec<String> = Vec::new();
        let ghost wanted = file_detail(path@, signature@);
        notes.push(path);
        notes.push(signature);
        assert(texts(notes@) =~= wanted.notes);
        self.files.insert_with(id, 0, Vec::new(), notes);
        Ok(())
    }

    /// Where a registered file is, and whether it was opened.
    pub fn file(&self, id: &str) -> (r: Result<(String, bool), Error>)
        requires
            self.wf(),
        ensures
            match r {
                Ok((path, opened)) => {
                    &&& keeps(self@.files, id@)
                    &&& path@ == row_of(self@.files, id@).2.notes[0]
                    &&& opened == file_opened(self@.files, id@)
                },
                Err(e) => e == Error::UnknownFile && !keeps(self@.files, id@),
            },
    {
        match self.files.entry(id) {
            None => Err(Error::UnknownFile),
            Some(entry) => {
                proof {
                    lemma_file_shaped(self@.files, id@);
                }
                Ok((entry.notes[0].clone(), entry.settings.len() > 0))
            },
        }
    }

    /// Take note that a registered file was opened: the one that was registered, by its
    /// signature. What was opened before needs no second look.
    pub fn open_file(&mut self, id: &str, signature: &str) -> (r: Result<(), Error>)
        requires
            old(self).wf(),
        ensures
            final(self).wf(),
            ({
                let s = old(self)@;
                if !keeps(s.files, id@) {
                    r == Err::<(), Error>(Error::UnknownFile) && final(self)@ == s
                } else if file_opened(s.files, id@) {
                    r is Ok && final(self)@ == s
                } else if row_of(s.files, id@).2.notes[1] != signature@ {
                    r == Err::<(), Error>(Error::SourceChanged) && final(self)@ == s
                } else {
                    r is Ok && final(self)@ == (Registered {
                        files: resettled(s.files, id@, seq![1usize]),
                        ..s
                    })
                }
            }),
    {
        let matches_now: bool = match self.files.entry(id) {
            None => return Err(Error::UnknownFile),
            Some(entry) => {
                if entry.settings.len() > 0 {
                    return Ok(());
                }
                proof {
                    lemma_file_shaped(self@.files, id@);
                }
                same(entry.notes[1].as_str(), signature)
            },
        };
        if !matches_now {
            return Err(Error::SourceChanged);
        }
        let mut settings: Vec<usize> = Vec::new();
        settings.push(1);
        assert(settings@ =~= seq![1usize]);
        self.files.set(id, settings);
        Ok(())
    }

    /// Close a file. The decoded cache is cleared with it.
    pub fn close_file(&mut self, id: &str) -> (r: Result<(), Error>)
        requires
            old(self).wf(),
        ensures
            final(self).wf(),
            if keeps(old(self)@.files, id@) {
                r is Ok && final(self)@ == (Registered {
                    files: without(old(self)@.files, id@),
                    cache_bytes: 0,
                    ..old(self)@
                })
            } else {
                r == Err::<(), Error>(Error::UnknownFile) && final(self)@ == old(self)@
            },
    {
        proof {
            lemma_files_without(self@.files, id@);
        }
        if self.files.remove(id) {
            self.cache_bytes = 0;
            Ok(())
        } else {
            Err(Error::UnknownFile)
        }
    }

    /// Give the decoded cache a limit. Its future growth is charged at once.
    pub fn configure_cache(&mut self, bytes: usize) -> (r: Result<(), Error>)
        requires
            old(self).wf(),
        ensures
            final(self).wf(),
            if bytes <= left_of(old(self)@) + larger(
                old(self)@.cache_limit,
                old(self)@.cache_bytes,
            ) {
                r is Ok && final(self)@ == (Registered {
                    cache_limit: bytes as int,
                    cache_bytes: if old(self)@.cache_bytes > bytes {
                        bytes as int
                    } else {
                        old(self)@.cache_bytes
                    },
                    ..old(self)@
                })
            } else {
                r == Err::<(), Error>(Error::CacheBudget) && final(self)@ == old(self)@
            },
    {
        let held: u128 = if self.cache_limit < self.cache_bytes {
            self.cache_bytes as u128
        } else {
            self.cache_limit as u128
        };
        if bytes as u128 > self.available() as u128 + held {
            return Err(Error::CacheBudget);
        }
        self.cache_limit = bytes;
        if self.cache_bytes > bytes {
            self.cache_bytes = bytes;
        }
        Ok(())
    }

    /// A raster may be opened under an identifier: the bytes that it may take.
    pub fn check_open(&self, id: &str) -> (r: Result<usize, Error>)
        requires
            self.wf(),
        ensures
            r == (if self@.sources.len() >= 128 {
                Err::<usize, Error>(Error::SourceCount)
            } else if keeps(self@.sources, id@) {
                Err(Error::SourceExists)
            } else if left_of(self@) < ENTRY_BYTES {
                Err(Error::SourceMetadataBudget)
            } else {
                Ok((left_of(self@) - ENTRY_BYTES) as usize)
            }),
    {
        if self.sources.len() >= 128 {
            return Err(Error::SourceCount);
        }
        if self.sources.contains(id) {
            return Err(Error::SourceExists);
        }
        let free: usize = self.available();
        if free < ENTRY_BYTES {
            return Err(Error::SourceMetadataBudget);
        }
        Ok(free - ENTRY_BYTES)
    }

    /// Take in an opened raster.
    pub fn add_raster(&mut self, id: String, bytes: usize) -> (r: Result<(), Error>)
        requires
            old(self).wf(),
            !keeps(old(self)@.sources, id@),
            old(self)@.sources.len() < 128,
        ensures
            final(self).wf(),
            if charged(old(self)@) + bytes + ENTRY_BYTES > old(self)@.max {
                r == Err::<(), Error>(Error::SessionMemory) && final(self)@ == old(self)@
            } else {
                &&& r is Ok
                &&& final(self)@ == (Registered {
                    sources: old(self)@.sources.push((id@, bytes as int, plain())),
                    ..old(self)@
                })
                &&& charged(final(self)@) == charged(old(self)@) + bytes + ENTRY_BYTES
                &&& charged(final(self)@) <= final(self)@.max
            },
    {
        let used: u128 = self.bytes();
        let more: u128 = bytes as u128 + ENTRY_BYTES as u128;
        let max: u128 = self.max_bytes as u128;
        if used > max || more > max - used {
            return Err(Error::SessionMemory);
        }
        self.sources.insert(id, bytes);
        Ok(())
    }

    /// Close a raster, with everything that was prepared of it.
    pub fn close(&mut self, id: &str) -> (r: Result<(), Error>)
        requires
            old(self).wf(),
        ensures
            final(self).wf(),
            if keeps(old(self)@.sources, id@) {
                r is Ok && final(self)@ == (Registered {
                    sources: without(old(self)@.sources, id@),
                    indexes: without(old(self)@.indexes, id@),
                    hierarchies: without(old(self)@.hierarchies, id@),
                    cumulative_full: without(old(self)@.cumulative_full, id@),
                    cumulative_blocked: without(old(self)@.cumulative_blocked, id@),
                    ..old(self)@
                })
            } else {
                r == Err::<(), Error>(Error::UnknownSource) && final(self)@ == old(self)@
            },
    {
        if !self.sources.remove(id) {
            return Err(Error::UnknownSource);
        }
        let a = self.indexes.remove(id);
        let b = self.hierarchies.remove(id);
        let c = self.cumulative_full.remove(id);
        let d = self.cumulative_blocked.remove(id);
        Ok(())
    }

    pub fn drop_plan(&mut self, id: &str) -> (r: Result<(), Error>)
        requires
            old(self).wf(),
        ensures
            final(self).wf(),
            r == (if keeps(old(self)@.plans, id@) {
                Ok::<(), Error>(())
            } else {
                Err(Error::UnknownPlan)
            }),
            final(self)@ == (Registered { plans: without(old(self)@.plans, id@), ..old(self)@ }),
    {
        if self.plans.remove(id) {
            Ok(())
        } else {
            Err(Error::UnknownPlan)
        }
    }

    /// Keep a coverage plan.
    pub fn add_plan(&mut self, id: String, bytes: usize) -> (r: Result<(), Error>)
        requires
            old(self).wf(),
        ensures
            final(self).wf(),
            if old(self)@.plans.len() >= 128 {
                r == Err::<(), Error>(Error::PlanCount) && final(self)@ == old(self)@
            } else if keeps(old(self)@.plans, id@) {
                r == Err::<(), Error>(Error::PlanExists) && final(self)@ == old(self)@
            } else if bytes + ENTRY_BYTES > left_of(old(self)@) {
                r == Err::<(), Error>(Error::PlanMemory) && final(self)@ == old(self)@
            } else {
                &&& r is Ok
                &&& final(self)@ == (Registered {
                    plans: old(self)@.plans.push((id@, bytes as int, plain())),
                    ..old(self)@
                })
                &&& charged(final(self)@) == charged(old(self)@) + bytes + ENTRY_BYTES
                &&& charged(final(self)@) <= final(self)@.max
            },
    {
        if self.plans.len() >= 128 {
            return Err(Error::PlanCount);
        }
        if self.plans.contains(id.as_str()) {
            return Err(Error::PlanExists);
        }
        if bytes as u128 + ENTRY_BYTES as u128 > self.available() as u128 {
            return Err(Error::PlanMemory);
        }
        self.plans.insert(id, bytes);
        Ok(())
    }

    /// What was prepared of a raster before.
    pub fn prepared_before(&self, table: &Table, id: &str, settings: &Vec<usize>, e: Error) -> (r:
        Option<Result<Kept, Error>>)
        requires
            table.wf(),
        ensures
            r == prior(table@, id@, settings@, e),
    {
        match table.entry(id) {
            None => None,
            Some(entry) => {
                if same_settings(&entry.settings, settings) {
                    Some(Ok(Kept::Already { bytes: entry.bytes }))
                } else {
                    Some(Err(e))
                }
            },
        }
    }

    /// Keep the row blocks of a raster. A second preparation leaves the first one.
    pub fn add_prepared(&mut self, id: String, estimate: usize, bytes: usize) -> (r: Result<
        Kept,
        Error,
    >)
        requires
            old(self).wf(),
        ensures
            final(self).wf(),
            ({
                let s = old(self)@;
                if !keeps(s.sources, id@) {
                    r == Err::<Kept, Error>(Error::UnknownSource) && final(self)@ == s
                } else if prior(s.indexes, id@, Seq::empty(), Error::PreparedMemory) is Some {
                    r == prior(s.indexes, id@, Seq::empty(), Error::PreparedMemory)->0
                        && final(self)@ == s
                } else if estimate + ENTRY_BYTES > left_of(s) || charged(s) + bytes + ENTRY_BYTES
                    > s.max {
                    r == Err::<Kept, Error>(Error::PreparedMemory) && final(self)@ == s
                } else if s.indexes.len() >= MAX_ENTRIES {
                    r == Err::<Kept, Error>(Error::TableFull) && final(self)@ == s
                } else {
                    &&& r == Ok::<Kept, Error>(Kept::Fresh)
                    &&& final(self)@ == (Registered {
                        indexes: s.indexes.push((id@, bytes as int, plain())),
                        ..s
                    })
                    &&& charged(final(self)@) == charged(s) + bytes + ENTRY_BYTES
                    &&& charged(final(self)@) <= final(self)@.max
                }
            }),
    {
        if !self.sources.contains(id.as_str()) {
            return Err(Error::UnknownSource);
        }
        let none: Vec<usize> = Vec::new();
        if let Some(before) = self.prepared_before(
            &self.indexes,
            id.as_str(),
            &none,
            Error::PreparedMemory,
        ) {
            return before;
        }
        let used: u128 = self.bytes();
        let more: u128 = bytes as u128 + ENTRY_BYTES as u128;
        if estimate as u128 + ENTRY_BYTES as u128 > self.available() as u128 || used + more
            > self.max_bytes as u128 {
            return Err(Error::PreparedMemory);
        }
        if self.indexes.len() >= MAX_ENTRIES {
            return Err(Error::TableFull);
        }
        self.indexes.insert(id, bytes);
        Ok(Kept::Fresh)
    }

    /// What preparing a field of a raster leads to before it is built: a refusal, one that is
    /// there already, or room for it.
    pub open spec fn field_outcome(
        &self,
        table: Seq<Row>,
        id: Seq<char>,
        settings: Seq<usize>,
        estimate: int,
        e: Error,
    ) -> Result<Kept, Error> {
        if !keeps(self@.sources, id) {
            Err(Error::UnknownSource)
        } else if prior(table, id, settings, e) is Some {
            prior(table, id, settings, e)->0
        } else if estimate + ENTRY_BYTES > left_of(self@) {
            Err(Error::PreparedMemory)
        } else if table.len() >= MAX_ENTRIES {
            Err(Error::TableFull)
        } else {
            Ok(Kept::Fresh)
        }
    }

    fn check_field(
        &self,
        table: &Table,
        id: &str,
        settings: &Vec<usize>,
        estimate: usize,
        e: Error,
    ) -> (r: Result<Kept, Error>)
        requires
            self.wf(),
            table.wf(),
        ensures
            r == self.field_outcome(table@, id@, settings@, estimate as int, e),
    {
        if !self.sources.contains(id) {
            return Err(Error::UnknownSource);
        }
        if let Some(before) = self.prepared_before(table, id, settings, e) {
            return before;
        }
        if estimate as u128 + ENTRY_BYTES as u128 > self.available() as u128 {
            return Err(Error::PreparedMemory);
        }
        if table.len() >= MAX_ENTRIES {
            return Err(Error::TableFull);
        }
        Ok(Kept::Fresh)
    }

    /// Keep the hierarchy of a raster, which holds no more than was estimated. A second one with
    /// leaves of the same size leaves the first.
    pub fn add_hierarchy(&mut self, id: String, leaf: usize, estimate: usize, bytes: usize) -> (r:
        Result<Kept, Error>)
        requires
            old(self).wf(),
            bytes <= estimate,
        ensures
            final(self).wf(),
            ({
                let s = old(self)@;
                let outcome = old(self).field_outcome(
                    s.hierarchies,
                    id@,
                    seq![leaf],
                    estimate as int,
                    Error::HierarchyLeaf,
                );
                &&& r == outcome
                &&& if outcome == Ok::<Kept, Error>(Kept::Fresh) {
                    &&& final(self)@ == (Registered {
                        hierarchies: s.hierarchies.push(
                            (id@, bytes as int, Detail { settings: seq![leaf], notes: Seq::empty() }),
                        ),
                        ..s
                    })
                    &&& charged(final(self)@) <= final(self)@.max
                } else {
                    final(self)@ == s
                }
            }),
    {
        let mut settings: Vec<usize> = Vec::new();
        settings.push(leaf);
        assert(settings@ =~= seq![leaf]);
        match self.check_field(
            &self.hierarchies,
            id.as_str(),
            &settings,
            estimate,
            Error::HierarchyLeaf,
        ) {
            Ok(Kept::Fresh) => {},
            other => return other,
        }
        self.hierarchies.insert_with(id, bytes, settings, Vec::new());
        assert(texts(Seq::<String>::empty()) =~= Seq::<Seq<char>>::empty());
        Ok(Kept::Fresh)
    }

    /// Keep a cumulative field of a raster, which holds no more than was estimated. A second one
    /// with the same origin and bands leaves the first.
    pub fn add_cumulative(
        &mut self,
        id: String,
        full: bool,
        settings: Vec<usize>,
        estimate: usize,
        bytes: usize,
    ) -> (r: Result<Kept, Error>)
        requires
            old(self).wf(),
            bytes <= estimate,
        ensures
            final(self).wf(),
            ({
                let s = old(self)@;
                let table = if full {
                    s.cumulative_full
                } else {
                    s.cumulative_blocked
                };
                let outcome = old(self).field_outcome(
                    table,
                    id@,
                    settings@,
                    estimate as int,
                    Error::CumulativeSettings,
                );
                let row: Row = (
                    id@,
                    bytes as int,
                    Detail { settings: settings@, notes: Seq::empty() },
                );
                &&& r == outcome
                &&& if outcome == Ok::<Kept, Error>(Kept::Fresh) {
                    &&& final(self)@ == (if full {
                        Registered { cumulative_full: table.push(row), ..s }
                    } else {
                        Registered { cumulative_blocked: table.push(row), ..s }
                    })
                    &&& charged(final(self)@) <= final(self)@.max
                } else {
                    final(self)@ == s
                }
            }),
    {
        assert(texts(Seq::<String>::empty()) =~= Seq::<Seq<char>>::empty());
        let outcome: Result<Kept, Error> = if full {
            self.check_field(
                &self.cumulative_full,
                id.as_str(),
                &settings,
                estimate,
                Error::CumulativeSettings,
            )
        } else {
            self.check_field(
                &self.cumulative_blocked,
                id.as_str(),
                &settings,
                estimate,
                Error::CumulativeSettings,
            )
        };
        match outcome {
            Ok(Kept::Fresh) => {},
            other => return other,
        }
        if full {
            self.cumulative_full.insert_with(id, bytes, settings, Vec::new());
        } else {
            self.cumulative_blocked.insert_with(id, bytes, settings, Vec::new());
        }
        Ok(Kept::Fresh)
    }

    /// A query over an index file can run within `memory` bytes of its own.
    pub fn check_index_query(&self, memory: usize) -> (r: Result<(), Error>)
        requires
            self.wf(),
        ensures
            r == (if 1048576 <= memory <= 134217728 && memory + 134217728 <= left_of(self@) {
                Ok::<(), Error>(())
            } else {
                Err(Error::IndexQueryMemory)
            }),
    {
        if memory < 1048576 || memory > 134217728 {
            return Err(Error::IndexQueryMemory);
        }
        if memory + 134217728 > self.available() {
            return Err(Error::IndexQueryMemory);
        }
        Ok(())
    }

    /// Set bytes aside for a request, sixty-four times its length, until it ends.
    pub fn begin_request(&mut self, length: usize) -> (r: Result<(), Error>)
        requires
            old(self).wf(),
        ensures
            final(self).wf(),
            if length > 67108864 {
                r == Err::<(), Error>(Error::RequestLength) && final(self)@ == old(self)@
            } else if length * 64 > larger(old(self)@.max - charged(old(self)@), 0) {
                r == Err::<(), Error>(Error::RequestMemory) && final(self)@ == old(self)@
            } else {
                r is Ok && final(self)@ == (Registered { transient: length * 64, ..old(self)@ })
            },
    {
        if length > 67108864 {
            return Err(Error::RequestLength);
        }
        let reserve: u128 = length as u128 * 64;
        let used: u128 = self.bytes();
        let max: u128 = self.max_bytes as u128;
        let free: u128 = if used < max {
            (max - used) as u128
        } else {
            0
        };
        if reserve > free {
            return Err(Error::RequestMemory);
        }
        self.transient_reserve = reserve as usize;
        Ok(())
    }

    pub fn end_request(&mut self)
        requires
            old(self).wf(),
        ensures
            final(self).wf(),
            final(self)@ == (Registered { transient: 0, ..old(self)@ }),
    {
        self.transient_reserve = 0;
    }
}

/// Closing a source that was just registered gives its bytes back.
pub proof fn a_closed_source_costs_nothing(s: Registered, id: Seq<char>, bytes: int)
    requires
        !keeps(s.readers, id),
    ensures
        charged(
            (Registered { readers: without(s.readers.push((id, bytes, plain())), id), ..s }),
        ) == charged(s),
{
    closing_undoes_registering(s.readers, id, bytes);
}

} // verus!
