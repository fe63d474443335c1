//! What the sums, counts and extremes of a row range say of its cells.
use vstd::prelude::*;

use crate::dyadic::{negative, units};
use crate::shared_rows::{
    cell_ok, extreme, finite_row, nothing, present, rank, row_of, total,
};
use crate::skv_header::finite_bits;

verus! {

/// A range of one cell sums up to that cell, and counts it where it is there.
pub proof fn a_range_of_one_cell_is_that_cell(row: Seq<Option<u64>>, i: int)
    ensures
        total(row, i, i) == 0,
        present(row, i, i) == 0,
        row[i] matches Some(bits) ==> total(row, i, i + 1) == units(bits) && present(row, i, i + 1)
            == 1,
        row[i] is None ==> total(row, i, i + 1) == 0 && present(row, i, i + 1) == 0,
{
    reveal_with_fuel(total, 2);
    reveal_with_fuel(present, 2);
}

/// The places of the values of a range.
pub open spec fn present_places(row: Seq<Option<u64>>, lo: int, hi: int) -> Set<int> {
    Set::new(|i: int| lo <= i < hi && row[i] is Some)
}

/// A range counts each of its values once.
pub proof fn a_range_counts_each_value_once(row: Seq<Option<u64>>, lo: int, hi: int)
    ensures
        present_places(row, lo, hi).finite(),
        present_places(row, lo, hi).len() == present(row, lo, hi),
    decreases hi - lo,
{
    if lo < hi {
        a_range_counts_each_value_once(row, lo, hi - 1);
        if row[hi - 1] is Some {
            assert(present_places(row, lo, hi) =~= present_places(row, lo, hi - 1).insert(hi - 1));
        } else {
            assert(present_places(row, lo, hi) =~= present_places(row, lo, hi - 1));
        }
    } else {
        assert(present_places(row, lo, hi) =~= Set::empty());
    }
}

/// The extreme of a range is the rank of one of its values, and no value of it lies beyond; a range
/// without values has none.
pub proof fn an_extreme_is_reached_and_not_passed(
    up: bool,
    row: Seq<Option<u64>>,
    lo: int,
    hi: int,
)
    requires
        finite_row(row),
        0 <= lo <= hi <= row.len(),
    ensures
        forall|i: int|
            lo <= i < hi && (#[trigger] row[i]) is Some ==> if up {
                rank(row[i]->0) <= extreme(up, row, lo, hi)
            } else {
                extreme(up, row, lo, hi) <= rank(row[i]->0)
            },
        (exists|i: int| lo <= i < hi && (#[trigger] row[i]) is Some) ==> exists|i: int|
            lo <= i < hi && (#[trigger] row[i]) is Some && rank(row[i]->0) == extreme(
                up,
                row,
                lo,
                hi,
            ),
        (forall|i: int| lo <= i < hi ==> (#[trigger] row[i]) is None) ==> extreme(up, row, lo, hi)
            == rank(nothing(up)),
    decreases hi - lo,
{
    if lo < hi {
        an_extreme_is_reached_and_not_passed(up, row, lo, hi - 1);
        let e = extreme(up, row, lo, hi - 1);
        let last = row[hi - 1];
        assert(cell_ok(last));
        if exists|i: int| lo <= i < hi && (#[trigger] row[i]) is Some {
            if exists|i: int| lo <= i < hi - 1 && (#[trigger] row[i]) is Some {
                let k = choose|i: int|
                    lo <= i < hi - 1 && (#[trigger] row[i]) is Some && rank(row[i]->0) == e;
                assert(cell_ok(row[k]));
                lemma_beyond_nothing(up, row[k]->0);
                if extreme(up, row, lo, hi) == e {
                    assert(row[k] is Some);
                } else {
                    assert(row[hi - 1] is Some);
                }
            } else {
                assert(last is Some);
                lemma_beyond_nothing(up, last->0);
                assert(row[hi - 1] is Some);
            }
        }
    }
}

/// Nothing lies beyond every finite value.
proof fn lemma_beyond_nothing(up: bool, bits: u64)
    requires
        finite_bits(bits),
    ensures
        up ==> rank(nothing(up)) < rank(bits),
        !up ==> rank(bits) < rank(nothing(up)),
{
}

/// A row holds the values of its own cells that are valid, and no others.
pub proof fn a_row_holds_its_valid_values(
    values: Seq<u64>,
    valid: Seq<bool>,
    begin: int,
    width: int,
    i: int,
)
    requires
        0 <= i < width,
    ensures
        row_of(values, valid, begin, width).len() == width,
        valid[begin + i] ==> row_of(values, valid, begin, width)[i] == Some(values[begin + i]),
        !valid[begin + i] ==> row_of(values, valid, begin, width)[i] is None,
{
}

} // verus!
