//! Summaries of a serving object: of a leaf from its samples, and of a parent from its children
//! alone. The compensated sums are the caller's.
use vstd::prelude::*;

use crate::error::Error;
use crate::hierarchy::{a_child_is_a_node_below, children_of};
use crate::layout::{end_of, lemma_node, level_at, widen, SummaryLayout};
use crate::persistent_page::{
    cell_at, child_extreme, counts_to, extreme_to, parent_state, part_state, valid_to,
    BandState, Part,
};
use crate::shared_rows::rank;

verus! {

/// All cells of a tile, in one row.
pub open spec fn whole(n: int) -> Part {
    Part { stride: n as usize, column: 0, width: n as usize, height: 1 }
}

/// The state of one band over a tile. `high` and `low` are the compensated sum of its valid
/// samples.
pub fn summarize(values: &Vec<u64>, valid: &Vec<bool>, high: u64, low: u64) -> (r: BandState)
    requires
        values@.len() == valid@.len(),
    ensures
        ({
            let n = values@.len() as int;
            let count = valid_to(valid@, whole(n), n);
            &&& r.high == high
            &&& r.low == low
            &&& r.count == count
            &&& if count > 0 {
                &&& rank(r.min) == extreme_to(false, values@, valid@, whole(n), n)
                &&& rank(r.max) == extreme_to(true, values@, valid@, whole(n), n)
            } else {
                r.min == 0 && r.max == 0
            }
        }),
{
    let n: usize = values.len();
    let p: Part = Part { stride: n, column: 0, width: n, height: 1 };
    part_state(values, valid, p, high, low)
}

/// Every sample of a tile is counted at its own place.
pub proof fn a_summary_takes_every_sample(n: int, i: int)
    requires
        0 <= i < n <= usize::MAX,
    ensures
        cell_at(whole(n), i) == i,
{
    assert(i / n == 0 && i % n == i) by (nonlinear_arith)
        requires
            0 <= i < n,
    ;
    assert(0 * n == 0) by (nonlinear_arith);
}

/// The records of the children of a node for one band.
pub fn child_records(
    layout: &SummaryLayout,
    width: usize,
    height: usize,
    node: usize,
    band: usize,
    bands: usize,
) -> (r: Result<Vec<usize>, Error>)
    requires
        layout.fits(width as int, height as int),
        node < end_of(widen(layout.levels@)),
        end_of(widen(layout.levels@)) * bands <= usize::MAX,
        band < bands,
    ensures
        if level_at(widen(layout.levels@), node as int) == 0 {
            r is Err && r->Err_0 == Error::NoChildren
        } else {
            &&& r is Ok
            &&& r->Ok_0@.len() == children_of(widen(layout.levels@), node as int).len()
            &&& forall|i: int|
                0 <= i < r->Ok_0@.len() ==> #[trigger] r->Ok_0@[i] == children_of(
                    widen(layout.levels@),
                    node as int,
                )[i] * bands + band
        },
{
    let ghost total = end_of(widen(layout.levels@));
    proof {
        assert(total <= total * bands) by (nonlinear_arith)
            requires
                0 <= total,
                1 <= bands,
        ;
    }
    let children: Vec<usize> = match layout.children(width, height, node) {
        Ok(children) => children,
        Err(e) => return Err(e),
    };
    proof {
        let flat = layout.of_grid(width as int, height as int, true);
        lemma_node(width as int, height as int, layout.tile_edge as int, flat, node as int);
        assert forall|k: int| 0 <= k < children@.len() implies 0 <= (#[trigger] children@[k])
            < total by {
            a_child_is_a_node_below(
                width as int,
                height as int,
                layout.tile_edge as int,
                flat,
                node as int,
                k,
            );
        }
    }
    let mut records: Vec<usize> = Vec::new();
    let mut i: usize = 0;
    while i < children.len()
        invariant
            i <= children@.len(),
            records@.len() == i,
            band < bands,
            total * bands <= usize::MAX,
            forall|k: int| 0 <= k < children@.len() ==> 0 <= (#[trigger] children@[k]) < total,
            forall|k: int| 0 <= k < i ==> #[trigger] records@[k] == children@[k] * bands + band,
        decreases children@.len() - i,
    {
        let child: usize = children[i];
        proof {
            assert(children@[i as int] < total);
            let c = child as int;
            let b = bands as int;
            assert(c * b + b <= total * b) by (nonlinear_arith)
                requires
                    c + 1 <= total,
                    0 < b,
            ;
            assert(0 <= c * b) by (nonlinear_arith)
                requires
                    0 <= c,
                    0 < b,
            ;
        }
        records.push(child * bands + band);
        i += 1;
    }
    Ok(records)
}

/// The states, all of which are there.
pub open spec fn states(children: Seq<Option<BandState>>) -> Seq<BandState> {
    children.map_values(|c: Option<BandState>| c->0)
}

/// The state of a parent, where every child has one. `high` and `low` are their merged
/// compensated sum.
pub fn merge_children(children: &Vec<Option<BandState>>, high: u64, low: u64) -> (r: Result<
    Option<BandState>,
    Error,
>)
    ensures
        if exists|i: int| 0 <= i < children@.len() && (#[trigger] children@[i]) is None {
            r == Ok::<Option<BandState>, Error>(None)
        } else {
            let n = children@.len() as int;
            let all = states(children@);
            let count = counts_to(all, n);
            if count > u64::MAX {
                r is Err && r->Err_0 == Error::CountOverflow
            } else {
                &&& r is Ok
                &&& r->Ok_0 is Some
                &&& r->Ok_0->0.high == high
                &&& r->Ok_0->0.low == low
                &&& r->Ok_0->0.count == count
                &&& if count > 0 {
                    &&& rank(r->Ok_0->0.min) == child_extreme(false, all, n)
                    &&& rank(r->Ok_0->0.max) == child_extreme(true, all, n)
                } else {
                    r->Ok_0->0.min == 0 && r->Ok_0->0.max == 0
                }
            }
        },
{
    let mut all: Vec<BandState> = Vec::new();
    let mut i: usize = 0;
    while i < children.len()
        invariant
            i <= children@.len(),
            all@.len() == i,
            forall|k: int| 0 <= k < i ==> (#[trigger] children@[k]) is Some,
            forall|k: int| 0 <= k < i ==> #[trigger] all@[k] == children@[k]->0,
        decreases children@.len() - i,
    {
        match children[i] {
            Some(state) => all.push(state),
            None => {
                assert(children@[i as int] is None);
                return Ok(None);
            },
        }
        i += 1;
    }
    assert(all@ =~= states(children@));
    match parent_state(&all, high, low) {
        Ok(state) => Ok(Some(state)),
        Err(e) => Err(e),
    }
}

} // verus!
