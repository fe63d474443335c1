//! Optimal ordered partition of known summary records under a range-size cap.
//! Objective: fewest requests, then fewest fetched records. This does not claim
//! to minimize latency for an unknown link, or to choose optimal tree nodes.
use vstd::prelude::*;

use crate::cancel::{check_cancel, ended, Cancel};
use crate::error::Error;

verus! {

pub const MAX_RECORDS: usize = 4096;

#[derive(Clone, Copy)]
struct State {
    requests: usize,
    records: usize,
    previous: usize,
}

/// Bytes of a machine word.
pub open spec fn word() -> int {
    usize::BITS as int / 8
}

/// Bytes that a schedule of `count` records holds: the caller's task triples, the sorted
/// record ids, the table (three words for each prefix) and the resulting ranges.
pub fn buffer_bound(count: usize) -> (r: usize)
    requires
        word() * (6 * count + 3 * (count + 1)) <= usize::MAX,
    ensures
        r == word() * (6 * count + 3 * (count + 1)),
{
    let bytes: usize = (usize::BITS / 8) as usize;
    assert(bytes == word());
    assert(word() * (6 * count + 3 * (count + 1)) == count * (word() * 6) + (count + 1) * (word()
        * 3)) by (nonlinear_arith);
    assert(count * (word() * 6) >= 0) by (nonlinear_arith)
        requires
            word() >= 0,
    ;
    assert(count + 1 <= (count + 1) * (word() * 3)) by (nonlinear_arith)
        requires
            word() >= 4,
    ;
    count * (bytes * 6) + (count + 1) * (bytes * 3)
}

/// Every record id is larger than the one before it.
pub open spec fn ascending(records: Seq<usize>) -> bool {
    forall|i: int, j: int| 0 <= i < j < records.len() ==> records[i] < records[j]
}

/// How many record ids lie between the first and the last of `records[start..end]`, both
/// counted.
pub open spec fn span(records: Seq<usize>, start: int, end: int) -> int {
    records[end - 1] - records[start] + 1
}

/// `starts` cuts the first `end` records into consecutive pieces, the last piece first:
/// each entry is the index at which a piece begins, and no piece spans more than `cap`.
pub open spec fn cuts(records: Seq<usize>, cap: int, end: int, starts: Seq<int>) -> bool
    decreases starts.len(),
{
    if end == 0 {
        starts.len() == 0
    } else {
        &&& starts.len() > 0
        &&& 0 <= starts[0] < end
        &&& span(records, starts[0], end) <= cap
        &&& cuts(records, cap, starts[0], starts.drop_first())
    }
}

/// How many records the pieces of `starts` fetch together.
pub open spec fn fetched(records: Seq<usize>, end: int, starts: Seq<int>) -> int
    decreases starts.len(),
{
    if starts.len() == 0 {
        0
    } else {
        span(records, starts[0], end) + fetched(records, starts[0], starts.drop_first())
    }
}

/// At the first piece at which they differ, counted from the end, `a` begins its piece later.
pub open spec fn later(a: Seq<int>, b: Seq<int>) -> bool
    decreases a.len(),
{
    ||| a.len() == 0
    ||| b.len() > 0 && a[0] > b[0]
    ||| b.len() > 0 && a[0] == b[0] && later(a.drop_first(), b.drop_first())
}

/// `a` makes fewer requests than `b`; or as many, and fetches fewer records; or the same in
/// both, and cuts later.
pub open spec fn preferred(records: Seq<usize>, end: int, a: Seq<int>, b: Seq<int>) -> bool {
    ||| a.len() < b.len()
    ||| a.len() == b.len() && fetched(records, end, a) < fetched(records, end, b)
    ||| a.len() == b.len() && fetched(records, end, a) == fetched(records, end, b) && later(a, b)
}

/// `starts` is the schedule of the first `end` records: preferred to every other.
pub open spec fn optimal(records: Seq<usize>, cap: int, end: int, starts: Seq<int>) -> bool {
    &&& cuts(records, cap, end, starts)
    &&& forall|other: Seq<int>| #[trigger]
        cuts(records, cap, end, other) ==> preferred(records, end, starts, other)
}

/// The ranges that a schedule reads, as first record and length, in reverse file order.
pub open spec fn ranges_of(records: Seq<usize>, end: int, starts: Seq<int>) -> Seq<
    (usize, usize),
> {
    Seq::new(
        starts.len(),
        |i: int|
            {
                let stop = if i == 0 {
                    end
                } else {
                    starts[i - 1]
                };
                (records[starts[i]], span(records, starts[i], stop) as usize)
            },
    )
}

/// Some last piece that the cap admits takes the fetched count of its best schedule past
/// what a word holds.
pub open spec fn cost_overflows(records: Seq<usize>, cap: int) -> bool {
    exists|start: int, starts: Seq<int>| #[trigger]
        last_piece(records, cap, start, starts) && fetched(records, start, starts) + span(
            records,
            start,
            records.len() as int,
        ) > usize::MAX
}

/// The cap admits a last piece that begins at `start`, behind the best schedule `starts`.
pub open spec fn last_piece(records: Seq<usize>, cap: int, start: int, starts: Seq<int>) -> bool {
    &&& 0 <= start < records.len()
    &&& span(records, start, records.len() as int) <= cap
    &&& optimal(records, cap, start, starts)
}

/// The records run from the first to the last id that a word holds, and all but the first
/// fit one range.
pub open spec fn span_overflows(records: Seq<usize>, cap: int) -> bool {
    &&& records.len() > 1
    &&& records[0] == 0
    &&& records[records.len() - 1] == usize::MAX
    &&& span(records, 1, records.len() as int) <= cap
}

proof fn lemma_fetched_bounds(records: Seq<usize>, cap: int, end: int, starts: Seq<int>)
    requires
        ascending(records),
        0 <= end <= records.len(),
        cuts(records, cap, end, starts),
    ensures
        starts.len() <= end,
        0 <= fetched(records, end, starts),
        end > 0 ==> fetched(records, end, starts) <= records[end - 1] - records[0] + 1,
        end == 0 ==> fetched(records, end, starts) == 0,
    decreases starts.len(),
{
    if end > 0 {
        lemma_fetched_bounds(records, cap, starts[0], starts.drop_first());
    }
}

proof fn lemma_prepend(
    records: Seq<usize>,
    cap: int,
    end: int,
    start: int,
    best: Seq<int>,
)
    requires
        0 <= start < end <= records.len(),
        span(records, start, end) <= cap,
        optimal(records, cap, start, best),
    ensures
        cuts(records, cap, end, seq![start] + best),
        fetched(records, end, seq![start] + best) == span(records, start, end) + fetched(
            records,
            start,
            best,
        ),
        forall|other: Seq<int>| #[trigger]
            cuts(records, cap, end, other) && other[0] == start ==> preferred(
                records,
                end,
                seq![start] + best,
                other,
            ),
{
    let all = seq![start] + best;
    assert(all.drop_first() =~= best);
    assert forall|other: Seq<int>| #[trigger]
        cuts(records, cap, end, other) && other[0] == start implies preferred(
        records,
        end,
        all,
        other,
    ) by {
        assert(cuts(records, cap, start, other.drop_first()));
        assert(preferred(records, start, best, other.drop_first()));
    }
}

/// Two schedules that are each preferred to every other are the same.
pub proof fn optimal_is_unique(
    records: Seq<usize>,
    cap: int,
    end: int,
    a: Seq<int>,
    b: Seq<int>,
)
    requires
        optimal(records, cap, end, a),
        optimal(records, cap, end, b),
    ensures
        a == b,
{
    assert(preferred(records, end, a, b));
    assert(preferred(records, end, b, a));
    lemma_later_antisymmetric(a, b);
}

proof fn lemma_later_antisymmetric(a: Seq<int>, b: Seq<int>)
    requires
        a.len() == b.len(),
        later(a, b),
        later(b, a),
    ensures
        a == b,
    decreases a.len(),
{
    if a.len() > 0 {
        lemma_later_antisymmetric(a.drop_first(), b.drop_first());
        assert(a =~= seq![a[0]] + a.drop_first());
        assert(b =~= seq![b[0]] + b.drop_first());
    } else {
        assert(a =~= b);
    }
}

/// Every record lies in exactly one of the ranges of a schedule.
pub proof fn ranges_cover_each_record_once(
    records: Seq<usize>,
    cap: int,
    end: int,
    starts: Seq<int>,
    record: int,
)
    requires
        ascending(records),
        0 <= record < end <= records.len(),
        cap <= usize::MAX,
        cuts(records, cap, end, starts),
    ensures
        exists|i: int|
            0 <= i < starts.len() && #[trigger] in_range(
                ranges_of(records, end, starts)[i],
                records[record],
            ),
        forall|i: int, j: int|
            0 <= i < starts.len() && 0 <= j < starts.len() && #[trigger] in_range(
                ranges_of(records, end, starts)[i],
                records[record],
            ) && #[trigger] in_range(ranges_of(records, end, starts)[j], records[record]) ==> i
                == j,
    decreases starts.len(),
{
    let ranges = ranges_of(records, end, starts);
    let rest = starts.drop_first();
    let start = starts[0];
    assert(cuts(records, cap, start, rest));
    let inner = ranges_of(records, start, rest);
    assert forall|i: int| 0 < i < starts.len() implies ranges[i] == inner[i - 1] by {
        assert(starts[i] == rest[i - 1]);
        if i > 1 {
            assert(starts[i - 1] == rest[i - 2]);
        }
    }
    assert(ranges[0] == (records[start], span(records, start, end) as usize));
    if record >= start {
        assert(in_range(ranges[0], records[record]));
        assert forall|i: int| 0 < i < starts.len() implies !in_range(
            #[trigger] ranges[i],
            records[record],
        ) by {
            lemma_ranges_below(records, cap, start, rest, i - 1);
        }
    } else {
        ranges_cover_each_record_once(records, cap, start, rest, record);
        let i = choose|i: int|
            0 <= i < rest.len() && #[trigger] in_range(inner[i], records[record]);
        assert(ranges[i + 1] == inner[i]);
        assert(in_range(ranges[i + 1], records[record]));
        assert(!in_range(ranges[0], records[record]));
        assert forall|i: int, j: int|
            0 <= i < starts.len() && 0 <= j < starts.len() && #[trigger] in_range(
                ranges[i],
                records[record],
            ) && #[trigger] in_range(ranges[j], records[record]) implies i == j by {
            assert(in_range(inner[i - 1], records[record]));
            assert(in_range(inner[j - 1], records[record]));
        }
    }
}

proof fn lemma_ranges_below(
    records: Seq<usize>,
    cap: int,
    end: int,
    starts: Seq<int>,
    i: int,
)
    requires
        ascending(records),
        0 <= end <= records.len(),
        cap <= usize::MAX,
        cuts(records, cap, end, starts),
        0 <= i < starts.len(),
    ensures
        end > 0,
        ranges_of(records, end, starts)[i].0 + ranges_of(records, end, starts)[i].1
            <= records[end - 1] + 1,
    decreases starts.len(),
{
    if i > 0 {
        let rest = starts.drop_first();
        lemma_ranges_below(records, cap, starts[0], rest, i - 1);
        assert(starts[i] == rest[i - 1]);
        if i > 1 {
            assert(starts[i - 1] == rest[i - 2]);
        }
        assert(ranges_of(records, end, starts)[i] == ranges_of(records, starts[0], rest)[i - 1]);
    }
}

pub open spec fn in_range(range: (usize, usize), record: usize) -> bool {
    range.0 <= record < range.0 + range.1
}

/// What one row of the table says: the best schedule of the first `end` records.
spec fn row(records: Seq<usize>, cap: int, end: int, state: State, best: Seq<int>) -> bool {
    &&& optimal(records, cap, end, best)
    &&& state.requests == best.len()
    &&& state.records == fetched(records, end, best)
    &&& end > 0 ==> state.previous == best[0]
}

/// The best schedule of the records whose ids are `records`, read under ranges of at most
/// `cap` records each, last range first: allocation-free `pop` walks it in file order.
pub fn plan<C: Cancel>(records: &[usize], cap: usize, cancel: &C) -> (r: Result<
    Vec<(usize, usize)>,
    Error,
>)
    ensures
        if records@.len() > MAX_RECORDS || cap == 0 {
            r == Err::<Vec<(usize, usize)>, Error>(Error::ScheduleBound)
        } else if !ascending(records@) {
            r == Err::<Vec<(usize, usize)>, Error>(Error::ScheduleOrder)
        } else {
            ended(
                cancel,
                r,
                if cost_overflows(records@, cap as int) {
                    r == Err::<Vec<(usize, usize)>, Error>(Error::ScheduleCost)
                } else if span_overflows(records@, cap as int) {
                    r == Err::<Vec<(usize, usize)>, Error>(Error::ScheduleRange)
                } else {
                    r matches Ok(ranges) && exists|starts: Seq<int>| #[trigger]
                        optimal(records@, cap as int, records@.len() as int, starts) && ranges@
                            == ranges_of(records@, records@.len() as int, starts)
                },
            )
        },
{
    if records.len() > MAX_RECORDS || cap == 0 {
        return Err(Error::ScheduleBound);
    }
    let mut i: usize = 1;
    while i < records.len()
        invariant
            1 <= i,
            cap > 0,
            records@.len() > 0 ==> i <= records@.len(),
            records@.len() <= MAX_RECORDS,
            forall|a: int, b: int| 0 <= a < b < i && b < records@.len() ==> records@[a] < records@[b],
        decreases records@.len() - i,
    {
        if records[i - 1] >= records[i] {
            assert(!(records@[i - 1] < records@[i as int]));
            return Err(Error::ScheduleOrder);
        }
        i += 1;
    }
    let n: usize = records.len();
    let ghost ids = records@;
    let ghost limit = cap as int;
    assert(ascending(ids));
    let mut states: Vec<State> = Vec::with_capacity(n + 1);
    states.push(State { requests: 0, records: 0, previous: 0 });
    let ghost mut best_of: Seq<Seq<int>> = seq![Seq::<int>::empty()];
    assert(row(ids, limit, 0, states@[0], best_of[0]));
    let mut end: usize = 1;
    while end <= n
        invariant
            ids == records@,
            n == records@.len(),
            n <= MAX_RECORDS,
            cap > 0,
            limit == cap,
            ascending(ids),
            1 <= end <= n + 1,
            states@.len() == end,
            best_of.len() == end,
            forall|e: int| 0 <= e < end ==> #[trigger] row(ids, limit, e, states@[e], best_of[e]),
            end == n + 1 && n > 0 ==> !cost_overflows(ids, limit) && !span_overflows(ids, limit),
        decreases n + 1 - end,
    {
        if end % 64 == 0 {
            check_cancel(cancel)?;
        }
        let mut best = State { requests: usize::MAX, records: usize::MAX, previous: 0 };
        let ghost mut chain: Seq<int> = Seq::empty();
        let mut start: usize = end;
        let mut stop: bool = false;
        while start > 0 && !stop
            invariant
                ids == records@,
                n == records@.len(),
                n <= MAX_RECORDS,
                cap > 0,
                limit == cap,
                ascending(ids),
                1 <= end <= n,
                0 <= start <= end,
                states@.len() == end,
                best_of.len() == end,
                forall|e: int| 0 <= e < end ==> #[trigger] row(ids, limit, e, states@[e], best_of[e]),
                stop ==> start < end,
                stop ==> start > 0 && span(ids, start - 1, end as int) <= usize::MAX,
                stop ==> forall|s: int| 0 <= s < start ==> #[trigger] span(ids, s, end as int) > limit,
                start == end ==> best.requests == usize::MAX,
                start < end ==> {
                    &&& cuts(ids, limit, end as int, chain)
                    &&& best.requests == chain.len()
                    &&& best.records == fetched(ids, end as int, chain)
                    &&& best.previous == chain[0]
                    &&& chain[0] >= start
                    &&& forall|other: Seq<int>| #[trigger]
                        cuts(ids, limit, end as int, other) && other[0] >= start ==> preferred(
                            ids,
                            end as int,
                            chain,
                            other,
                        )
                },
                forall|s: int|
                    start <= s < end && span(ids, s, end as int) <= limit ==> fetched(
                        ids,
                        s,
                        #[trigger] best_of[s],
                    ) + span(ids, s, end as int) <= usize::MAX,
                !stop && start == 0 && end == n ==> !span_overflows(ids, limit),
                !stop ==> forall|s: int| start <= s < end ==> #[trigger] span(ids, s, end as int) <= limit,
            decreases start + if stop { 0int } else { 1int },
        {
            let s: usize = start - 1;
            let difference: usize = records[end - 1] - records[s];
            if difference == usize::MAX {
                proof {
                    assert(s == 0 && ids[0] == 0 && end == n) by {
                        if s > 0 {
                            assert(ids[0] < ids[s as int]);
                        }
                        if end < n {
                            assert(ids[end - 1] < ids[n - 1]);
                        }
                    }
                    assert(span(ids, 1, end as int) <= limit);
                    assert(span_overflows(ids, limit));
                    assert forall|t: int| 0 <= t < n implies optimal(
                        ids,
                        limit,
                        t,
                        #[trigger] best_of[t],
                    ) by {
                        assert(row(ids, limit, t, states@[t], best_of[t]));
                    }
                    lemma_no_cost_overflow(ids, limit, best_of);
                }
                return Err(Error::ScheduleRange);
            }
            let width: usize = difference + 1;
            assert(width == span(ids, s as int, end as int));
            if width > cap {
                proof {
                    assert forall|t: int| 0 <= t < start implies #[trigger] span(ids, t, end as int)
                        > limit by {
                        if t < s {
                            assert(ids[t] < ids[s as int]);
                        }
                    }
                }
                stop = true;
            } else {
                assert(row(ids, limit, s as int, states@[s as int], best_of[s as int]));
                let state = states[s];
                proof {
                    lemma_fetched_bounds(ids, limit, s as int, best_of[s as int]);
                    lemma_prepend(ids, limit, end as int, s as int, best_of[s as int]);
                }
                if state.records > usize::MAX - width {
                    proof {
                        lemma_fetched_bounds(ids, limit, s as int, best_of[s as int]);
                        if s > 0 {
                            assert(ids[s - 1] < ids[s as int]);
                        }
                        assert(end == n) by {
                            if end < n {
                                assert(ids[end - 1] < ids[n - 1]);
                            }
                        }
                        assert(last_piece(ids, limit, s as int, best_of[s as int]));
                    }
                    return Err(Error::ScheduleCost);
                }
                let candidate = State {
                    requests: state.requests + 1,
                    records: state.records + width,
                    previous: s,
                };
                let ghost joined = seq![s as int] + best_of[s as int];
                if candidate.requests < best.requests || (candidate.requests == best.requests
                    && candidate.records < best.records) {
                    best = candidate;
                    proof {
                        let prior = chain;
                        chain = joined;
                        assert forall|other: Seq<int>| #[trigger]
                            cuts(ids, limit, end as int, other) && other[0] >= s implies preferred(
                            ids,
                            end as int,
                            chain,
                            other,
                        ) by {
                            if other[0] > s {
                                assert(preferred(ids, end as int, prior, other));
                            }
                        }
                    }
                } else {
                    proof {
                        assert forall|other: Seq<int>| #[trigger]
                            cuts(ids, limit, end as int, other) && other[0] >= s implies preferred(
                            ids,
                            end as int,
                            chain,
                            other,
                        ) by {
                            if other[0] == s {
                                assert(preferred(ids, end as int, joined, other));
                                assert(chain[0] > other[0]);
                            }
                        }
                    }
                }
                start = s;
            }
        }
        proof {
            assert(cuts(ids, limit, end as int, chain));
            assert(optimal(ids, limit, end as int, chain));
            if end == n {
                assert forall|t: int| 0 <= t < n implies optimal(
                    ids,
                    limit,
                    t,
                    #[trigger] best_of[t],
                ) by {
                    assert(row(ids, limit, t, states@[t], best_of[t]));
                }
                assert forall|t: int|
                    0 <= t < n && span(ids, t, n as int) <= limit implies fetched(
                    ids,
                    t,
                    #[trigger] best_of[t],
                ) + span(ids, t, n as int) <= usize::MAX by {
                    if t < start {
                        assert(span(ids, t, end as int) > limit);
                    }
                }
                lemma_no_cost_overflow(ids, limit, best_of);
                if span_overflows(ids, limit) {
                    assert(stop);
                    if start > 1 {
                        assert(span(ids, 1, end as int) > limit);
                    }
                }
            }
            best_of = best_of.push(chain);
        }
        states.push(best);
        assert(row(ids, limit, end as int, best, chain));
        end += 1;
    }
    let mut ranges: Vec<(usize, usize)> = Vec::with_capacity(n);
    let mut end: usize = n;
    let ghost starts = best_of[n as int];
    let ghost mut rest: Seq<int> = starts;
    assert(row(ids, limit, n as int, states@[n as int], best_of[n as int]));
    while end > 0
        invariant
            ids == records@,
            n == records@.len(),
            ascending(ids),
            limit == cap,
            end <= n,
            states@.len() == n + 1,
            best_of.len() == n + 1,
            forall|e: int| 0 <= e <= n ==> #[trigger] row(ids, limit, e, states@[e], best_of[e]),
            starts == best_of[n as int],
            rest == best_of[end as int],
            ranges@.len() + rest.len() == starts.len(),
            rest == starts.skip(ranges@.len() as int),
            end == (if ranges@.len() == 0 {
                n as int
            } else {
                starts[ranges@.len() - 1]
            }),
            ranges@ == ranges_of(ids, n as int, starts).take(ranges@.len() as int),
        decreases end,
    {
        assert(row(ids, limit, end as int, states@[end as int], best_of[end as int]));
        let start: usize = states[end].previous;
        assert(row(ids, limit, start as int, states@[start as int], best_of[start as int]));
        proof {
            let at = ranges@.len() as int;
            assert(rest[0] == starts[at]);
            lemma_optimal_tail(ids, limit, end as int, rest);
            optimal_is_unique(ids, limit, start as int, rest.drop_first(), best_of[start as int]);
            assert(rest.drop_first() =~= starts.skip(at + 1));
            if start < end - 1 {
                assert(ids[start as int] < ids[end - 1]);
            }
        }
        let ghost before = ranges@;
        ranges.push((records[start], records[end - 1] - records[start] + 1));
        proof {
            rest = best_of[start as int];
            assert(ranges@ =~= ranges_of(ids, n as int, starts).take(before.len() as int + 1));
        }
        end = start;
    }
    check_cancel(cancel)?;
    assert(row(ids, limit, 0, states@[0], best_of[0]));
    assert(ranges@ =~= ranges_of(ids, n as int, starts));
    Ok(ranges)
}

proof fn lemma_no_cost_overflow(records: Seq<usize>, cap: int, best_of: Seq<Seq<int>>)
    requires
        best_of.len() >= records.len(),
        forall|s: int|
            0 <= s < records.len() ==> optimal(records, cap, s, #[trigger] best_of[s]),
        forall|s: int|
            0 <= s < records.len() && span(records, s, records.len() as int) <= cap ==> fetched(
                records,
                s,
                #[trigger] best_of[s],
            ) + span(records, s, records.len() as int) <= usize::MAX,
    ensures
        !cost_overflows(records, cap),
{
    if cost_overflows(records, cap) {
        let (start, starts) = choose|start: int, starts: Seq<int>| #[trigger]
            last_piece(records, cap, start, starts) && fetched(records, start, starts) + span(
                records,
                start,
                records.len() as int,
            ) > usize::MAX;
        optimal_is_unique(records, cap, start, starts, best_of[start]);
    }
}

/// What is left of a best schedule without its last piece is the best of what is left.
proof fn lemma_optimal_tail(records: Seq<usize>, cap: int, end: int, starts: Seq<int>)
    requires
        0 < end <= records.len(),
        optimal(records, cap, end, starts),
    ensures
        optimal(records, cap, starts[0], starts.drop_first()),
{
    let start = starts[0];
    assert forall|other: Seq<int>| #[trigger] cuts(records, cap, start, other) implies preferred(
        records,
        start,
        starts.drop_first(),
        other,
    ) by {
        let joined = seq![start] + other;
        assert(joined.drop_first() =~= other);
        assert(cuts(records, cap, end, joined));
        assert(preferred(records, end, starts, joined));
    }
}

} // verus!
