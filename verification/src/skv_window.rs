//! Reading a window: which payloads are read together, and how their bytes reach the output.
use vstd::prelude::*;

use crate::bytes::{u32_at, u64_at};
use crate::error::Error;
use crate::skv_directory::{rec_begin, rec_encoded, rec_leader};
use crate::skv_header::RECORD;

verus! {

pub const MAX_PENDING: usize = 256;

/// A record that a read needs: which output band it goes to, which source band and record
/// it is, the cells of its tile, and the record. Physical ordering is independent of native
/// output band order and mathematical contribution order.
#[derive(Debug)]
pub struct Pending {
    pub out_index: usize,
    pub band: usize,
    pub id: usize,
    pub bounds: [usize; 4],
    pub record: Vec<u8>,
}

impl Pending {
    pub open spec fn wf(&self) -> bool {
        self.record@.len() == RECORD
    }

    pub open spec fn begin(&self) -> int {
        rec_begin(self.record@)
    }

    pub open spec fn size(&self) -> int {
        rec_encoded(self.record@)
    }

    pub open spec fn leader(&self) -> int {
        rec_leader(self.record@)
    }
}

pub open spec fn all_wf(entries: Seq<Pending>) -> bool {
    forall|i: int| 0 <= i < entries.len() ==> (#[trigger] entries[i]).wf()
}

/// How many entries at the start of `entries` name `leader`.
pub open spec fn led(entries: Seq<Pending>, leader: int) -> int
    decreases entries.len(),
{
    if entries.len() == 0 || entries[0].leader() != leader {
        0
    } else {
        1 + led(entries.drop_first(), leader)
    }
}

/// How many entries share the payload of `entry`: itself and those that follow it directly.
pub fn selected_group_members(grouped: bool, entry: &Pending, remaining: &[Pending]) -> (r: usize)
    requires
        entry.wf(),
        all_wf(remaining@),
        remaining@.len() < usize::MAX,
    ensures
        r == 1 + if grouped {
            led(remaining@, entry.leader())
        } else {
            0
        },
        r <= remaining@.len() + 1,
{
    if !grouped {
        return 1;
    }
    let leader: u64 = u64_at(entry.record.as_slice(), 112);
    let n: usize = remaining.len();
    let mut count: usize = 0;
    let ghost all = remaining@;
    assert(all.skip(0) =~= all);
    while count < n
        invariant
            grouped,
            count <= n,
            n == remaining@.len(),
            n < usize::MAX,
            all == remaining@,
            all_wf(all),
            leader == entry.leader(),
            led(all, leader as int) == count + led(all.skip(count as int), leader as int),
        decreases n - count,
    {
        assert(all.skip(count as int)[0] == all[count as int]);
        if u64_at(remaining[count].record.as_slice(), 112) != leader {
            return 1 + count;
        }
        assert(all.skip(count as int).drop_first() =~= all.skip(count + 1));
        count += 1;
    }
    1 + count
}

/// The next payload continues a range of bytes, and both fit one read and one queue.
pub open spec fn range_fits(
    offset: int,
    length: int,
    count: int,
    next: &Pending,
    members: int,
    limit: int,
) -> bool {
    &&& next.begin() == offset + length
    &&& length + next.size() <= limit
    &&& count + members <= MAX_PENDING
}

pub fn pending_range_fits(
    offset: u64,
    length: usize,
    count: usize,
    next: &Pending,
    members: usize,
    limit: usize,
) -> (r: bool)
    requires
        next.wf(),
        offset + length <= u64::MAX,
        limit < usize::MAX,
        count + members <= usize::MAX,
    ensures
        r == range_fits(
            offset as int,
            length as int,
            count as int,
            next,
            members as int,
            limit as int,
        ),
{
    let record = next.record.as_slice();
    u64_at(record, 0) == offset + length as u64 && length.saturating_add(
        u32_at(record, 8) as usize,
    ) <= limit && count + members <= MAX_PENDING
}

pub open spec fn by_begin(entries: Seq<Pending>) -> bool {
    forall|i: int, j: int|
        0 <= i <= j < entries.len() ==> (#[trigger] entries[i]).begin() <= (
        #[trigger] entries[j]).begin()
}

/// Order the records of one tile by the place of their payloads.
pub fn sort_by_begin(entries: Vec<Pending>) -> (r: Vec<Pending>)
    requires
        all_wf(entries@),
    ensures
        all_wf(r@),
        by_begin(r@),
        r@.to_multiset() == entries@.to_multiset(),
        r@.len() == entries@.len(),
{
    broadcast use vstd::seq_lib::group_to_multiset_ensures;

    let ghost all = entries@;
    let mut rest = entries;
    let mut out: Vec<Pending> = Vec::with_capacity(rest.len());
    assert(out@.to_multiset().add(rest@.to_multiset()) =~= all.to_multiset());
    while rest.len() > 0
        invariant
            all_wf(rest@),
            all_wf(out@),
            by_begin(out@),
            out@.len() + rest@.len() == all.len(),
            out@.to_multiset().add(rest@.to_multiset()) == all.to_multiset(),
        decreases rest@.len(),
    {
        broadcast use vstd::seq_lib::group_to_multiset_ensures;

        let ghost before_rest = rest@;
        let ghost before_out = out@;
        let entry = rest.remove(0);
        assert(entry == before_rest[0]);
        let begin: u64 = u64_at(entry.record.as_slice(), 0);
        let mut at: usize = out.len();
        while at > 0 && u64_at(out[at - 1].record.as_slice(), 0) > begin
            invariant
                at <= out@.len(),
                out@ == before_out,
                all_wf(out@),
                begin == entry.begin(),
                forall|i: int| at <= i < out@.len() ==> (#[trigger] out@[i]).begin() > begin,
            decreases at,
        {
            at -= 1;
        }
        proof {
            assert forall|i: int| 0 <= i < at implies (#[trigger] out@[i]).begin() <= begin by {
                assert(out@[i].begin() <= out@[at - 1].begin());
            }
        }
        let ghost moved = entry;
        out.insert(at, entry);
        proof {
            assert(out@ == before_out.insert(at as int, moved));
            assert(rest@ =~= before_rest.remove(0));
            assert forall|i: int| 0 <= i < out@.len() implies (#[trigger] out@[i]).wf() by {
                if i < at {
                    assert(out@[i] == before_out[i]);
                } else if i > at {
                    assert(out@[i] == before_out[i - 1]);
                }
            }
            assert forall|i: int, j: int| 0 <= i <= j < out@.len() implies (#[trigger] out@[i]).begin()
                <= (#[trigger] out@[j]).begin() by {
                let a = if i < at {
                    i
                } else {
                    i - 1
                };
                let b = if j < at {
                    j
                } else {
                    j - 1
                };
                if i != at {
                    assert(out@[i] == before_out[a]);
                }
                if j != at {
                    assert(out@[j] == before_out[b]);
                }
            }
            assert forall|i: int| 0 <= i < rest@.len() implies (#[trigger] rest@[i]).wf() by {
                assert(rest@[i] == before_rest[i + 1]);
            }
            assert(out@.to_multiset().add(rest@.to_multiset()) =~= all.to_multiset());
        }
    }
    assert(rest@.to_multiset() =~= vstd::multiset::Multiset::empty());
    assert(out@.to_multiset() =~= all.to_multiset());
    out
}

/// Payloads that one read fetches: `length` bytes from `offset` on.
pub struct Queue {
    pub pending: Vec<Pending>,
    pub offset: u64,
    pub length: usize,
}

/// The payloads of `entries` fill `length` bytes from `offset` on, one behind the other.
pub open spec fn fills(entries: Seq<Pending>, offset: int, length: int) -> bool {
    &&& entries.len() > 0 ==> entries[0].begin() == offset
    &&& entries.len() > 0 ==> entries[entries.len() - 1].begin() + entries[entries.len()
        - 1].size() == offset + length
    &&& entries.len() == 0 ==> length == 0
    &&& forall|i: int|
        0 < i < entries.len() ==> {
            ||| (#[trigger] entries[i]).begin() == entries[i - 1].begin() && entries[i].size()
                == entries[i - 1].size()
            ||| entries[i].begin() == entries[i - 1].begin() + entries[i - 1].size()
        }
}

/// The entries of one payload: the same place and leader.
pub open spec fn one_payload(members: Seq<Pending>) -> bool {
    &&& members.len() > 0
    &&& all_wf(members)
    &&& forall|i: int|
        0 <= i < members.len() ==> (#[trigger] members[i]).begin() == members[0].begin()
            && members[i].size() == members[0].size()
}

impl Queue {
    pub open spec fn wf(&self, limit: int) -> bool {
        &&& all_wf(self.pending@)
        &&& self.pending@.len() <= MAX_PENDING
        &&& self.length <= limit
        &&& self.offset + self.length <= u64::MAX
        &&& fills(self.pending@, self.offset as int, self.length as int)
    }

    pub fn new() -> (r: Queue)
        ensures
            r.wf(0),
            r.pending@.len() == 0,
    {
        Queue { pending: Vec::new(), offset: 0, length: 0 }
    }

    /// Whether what is queued is to be read before `members` are queued.
    pub fn must_flush(&self, members: &Vec<Pending>, limit: usize) -> (r: bool)
        requires
            self.wf(limit as int),
            one_payload(members@),
            limit < usize::MAX,
            members@.len() <= MAX_PENDING,
        ensures
            r == (self.pending@.len() > 0 && !range_fits(
                self.offset as int,
                self.length as int,
                self.pending@.len() as int,
                &members@[0],
                members@.len() as int,
                limit as int,
            )),
    {
        self.pending.len() > 0 && !pending_range_fits(
            self.offset,
            self.length,
            self.pending.len(),
            &members[0],
            members.len(),
            limit,
        )
    }

    /// Take what is queued, to be read and served.
    pub fn take(&mut self) -> (r: Queue)
        ensures
            r == *old(self),
            final(self).pending@.len() == 0,
            final(self).offset == 0,
            final(self).length == 0,
    {
        let mut pending: Vec<Pending> = Vec::new();
        std::mem::swap(&mut pending, &mut self.pending);
        let r = Queue { pending, offset: self.offset, length: self.length };
        self.offset = 0;
        self.length = 0;
        r
    }

    /// Queue the entries of one payload behind what is queued.
    pub fn push(&mut self, members: Vec<Pending>, limit: usize) -> (r: Result<(), Error>)
        requires
            old(self).wf(limit as int),
            one_payload(members@),
            limit < usize::MAX,
            members@.len() <= MAX_PENDING,
            members@[0].begin() + members@[0].size() <= u64::MAX,
            old(self).pending@.len() > 0 ==> range_fits(
                old(self).offset as int,
                old(self).length as int,
                old(self).pending@.len() as int,
                &members@[0],
                members@.len() as int,
                limit as int,
            ),
        ensures
            if members@[0].size() > limit {
                r == Err::<(), Error>(Error::PayloadRange) && *final(self) == *old(self)
            } else {
                &&& r is Ok
                &&& final(self).wf(limit as int)
                &&& final(self).pending@ == old(self).pending@ + members@
                &&& final(self).offset == (if old(self).pending@.len() == 0 {
                    members@[0].begin()
                } else {
                    old(self).offset as int
                })
            },
    {
        let size: u32 = u32_at(members[0].record.as_slice(), 8);
        if size as u64 > limit as u64 {
            return Err(Error::PayloadRange);
        }
        if self.pending.len() == 0 {
            self.offset = u64_at(members[0].record.as_slice(), 0);
            self.length = 0;
        }
        self.length = self.length + size as usize;
        let ghost before = self.pending@;
        let ghost added = members@;
        let mut members = members;
        self.pending.append(&mut members);
        proof {
            let all = self.pending@;
            assert(all =~= before + added);
            assert forall|i: int| 0 <= i < all.len() implies (#[trigger] all[i]).wf() by {
                if i >= before.len() {
                    assert(all[i] == added[i - before.len()]);
                } else {
                    assert(all[i] == before[i]);
                }
            }
            let last = added[added.len() - 1];
            assert(all[all.len() - 1] == last);
            assert forall|i: int| 0 < i < all.len() implies {
                ||| (#[trigger] all[i]).begin() == all[i - 1].begin() && all[i].size() == all[i
                    - 1].size()
                ||| all[i].begin() == all[i - 1].begin() + all[i - 1].size()
            } by {
                if i < before.len() {
                    assert(all[i] == before[i] && all[i - 1] == before[i - 1]);
                } else if i > before.len() {
                    assert(all[i] == added[i - before.len()] && all[i - 1] == added[i - 1
                        - before.len()]);
                } else {
                    assert(all[i] == added[0] && all[i - 1] == before[i - 1]);
                }
            }
            if before.len() > 0 {
                assert(all[0] == before[0]);
            } else {
                assert(all[0] == added[0]);
            }
        }
        Ok(())
    }
}

proof fn lemma_inside_from(entries: Seq<Pending>, offset: int, length: int, i: int)
    requires
        fills(entries, offset, length),
        0 <= i < entries.len(),
        forall|k: int| 0 <= k < entries.len() ==> (#[trigger] entries[k]).size() >= 0,
    ensures
        offset <= entries[i].begin(),
    decreases i,
{
    if i > 0 {
        lemma_inside_from(entries, offset, length, i - 1);
    }
}

proof fn lemma_inside_to(entries: Seq<Pending>, offset: int, length: int, i: int)
    requires
        fills(entries, offset, length),
        0 <= i < entries.len(),
        forall|k: int| 0 <= k < entries.len() ==> (#[trigger] entries[k]).size() >= 0,
    ensures
        entries[i].begin() + entries[i].size() <= offset + length,
    decreases entries.len() - i,
{
    if i < entries.len() - 1 {
        lemma_inside_to(entries, offset, length, i + 1);
    }
}

/// Every queued payload lies within the bytes that the queue's read fetches.
pub proof fn queued_payloads_are_fetched(queue: &Queue, limit: int, i: int)
    requires
        queue.wf(limit),
        0 <= i < queue.pending@.len(),
    ensures
        queue.offset <= queue.pending@[i].begin(),
        queue.pending@[i].begin() + queue.pending@[i].size() <= queue.offset + queue.length,
{
    lemma_inside_from(queue.pending@, queue.offset as int, queue.length as int, i);
    lemma_inside_to(queue.pending@, queue.offset as int, queue.length as int, i);
}

} // verus!
