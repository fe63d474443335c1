//! What prepared ranges promise of the payloads that a read will ask for.
use vstd::prelude::*;

use crate::error::Error;
use crate::skv_prefetch::{closed, with_payload, DemandView};
use crate::skv_window::{range_fits, Pending};

verus! {

/// A range holds some bytes.
pub open spec fn range_holds(range: (u64, u64), begin: int, size: int) -> bool {
    range.0 <= begin && begin + size <= range.0 + range.1
}

/// Demands hold some bytes: in a range that is closed, or in the one that grows.
pub open spec fn demands_hold(d: DemandView, begin: int, size: int) -> bool {
    ||| exists|i: int| 0 <= i < d.ranges.len() && range_holds(#[trigger] d.ranges[i], begin, size)
    ||| d.span.count > 0 && d.span.offset <= begin && begin + size <= d.span.offset + d.span.length
}

/// A demanded payload lies in a prepared range, and what was prepared before stays prepared, unless
/// the preparation as a whole is given up.
pub proof fn a_demanded_payload_is_prepared(
    d: DemandView,
    entry: Pending,
    members: int,
    limit: int,
    next: DemandView,
    begin: int,
    size: int,
)
    requires
        0 <= entry.begin(),
        0 <= entry.size(),
        entry.begin() + entry.size() <= u64::MAX,
        1 <= members <= 64,
        0 <= limit <= 16777216,
        d.span.length <= 16777216,
        d.span.count <= 1048576,
        with_payload(d, &entry, members, limit) == Ok::<DemandView, Error>(next),
        !next.declined,
    ensures
        demands_hold(next, entry.begin(), entry.size()),
        size >= 0 && demands_hold(d, begin, size) ==> demands_hold(next, begin, size),
{
    let grows = d.span.count > 0 && range_fits(
        d.span.offset as int,
        d.span.length as int,
        d.span.count as int,
        &entry,
        members,
        limit,
    );
    if demands_hold(d, begin, size) && size >= 0 {
        if exists|i: int|
            0 <= i < d.ranges.len() && range_holds(#[trigger] d.ranges[i], begin, size) {
            let i = choose|i: int|
                0 <= i < d.ranges.len() && range_holds(#[trigger] d.ranges[i], begin, size);
            assert(next.ranges[i] == d.ranges[i]);
        } else if !grows {
            let last = d.ranges.len() as int;
            assert(range_holds(next.ranges[last], begin, size));
        }
    }
}

/// Closing demands keeps all that they hold.
pub proof fn closed_demands_hold_what_was_demanded(
    d: DemandView,
    ranges: Seq<(u64, u64)>,
    begin: int,
    size: int,
)
    requires
        closed(d) == Some(ranges),
        demands_hold(d, begin, size),
    ensures
        exists|i: int| 0 <= i < ranges.len() && range_holds(#[trigger] ranges[i], begin, size),
{
    if exists|i: int| 0 <= i < d.ranges.len() && range_holds(#[trigger] d.ranges[i], begin, size) {
        let i = choose|i: int|
            0 <= i < d.ranges.len() && range_holds(#[trigger] d.ranges[i], begin, size);
        assert(ranges[i] == d.ranges[i]);
    } else {
        assert(range_holds(ranges[ranges.len() - 1], begin, size));
    }
}

} // verus!
