//! The bounded joint planner's reservation, its forest and the execution of its plan.
//! Physical normalized pages are known; compressed original sources are excluded.
use vstd::prelude::*;

use crate::cancel::{check_cancel, ended, Cancel};
use crate::error::Error;
use crate::hierarchy::{a_child_is_a_node_below, children_of};
use crate::layout::{box_at, end_of, level_at, widen, SummaryLayout};
use crate::persistent::{Header, HEADER, MAX_QUERY_BYTES, MAX_READS, RANGE, RAW, SUMMARIES};
use crate::persistent_query::{Trace, WORK_LIMIT};
use crate::persistent_walk::Relation;

verus! {

/// The most nodes of a forest.
pub const MAX_NODES: usize = 4096;

/// The most physical demands of a forest.
pub const MAX_SPANS: usize = 4096;

/// The planner's limits and costs. The supplied serial transport cost model and the search mode
/// are the planner's own.
#[derive(Clone, Copy, Debug, PartialEq, Eq, Structural)]
pub struct JointQueryOptions {
    pub max_planner_bytes: usize,
    pub max_requests: usize,
    pub max_total_read_bytes: u64,
    pub max_range_bytes: u64,
    pub max_summary_gap_bytes: u64,
    /// Cost per selected band and summary contribution.
    pub summary_reduction_ns: u64,
    /// Cost per positive cell and selected band (boundary geometry is separate).
    pub raw_cell_reduction_ns: u64,
}

impl JointQueryOptions {
    pub open spec fn refusal(self) -> Option<Error> {
        if !(1 <= self.max_range_bytes <= RANGE) {
            Some(Error::JointRange)
        } else if !(65536 <= self.max_planner_bytes <= 33554432) {
            Some(Error::JointReservation)
        } else if self.max_summary_gap_bytes > MAX_QUERY_BYTES {
            Some(Error::JointGap)
        } else {
            None
        }
    }

    /// What the planner holds: its forest and result, and apart from them live task metadata,
    /// diagnostics and two range caches.
    pub open spec fn reservation(self) -> int {
        self.max_planner_bytes + 2 * self.max_range_bytes + 8388608
    }

    pub fn reserve(self) -> (r: Result<usize, Error>)
        ensures
            r == match self.refusal() {
                Some(e) => Err::<usize, Error>(e),
                None => Ok(self.reservation() as usize),
            },
            r is Ok ==> self.reservation() <= 50331648,
    {
        if self.max_range_bytes < 1 || self.max_range_bytes > RANGE as u64 {
            return Err(Error::JointRange);
        }
        if self.max_planner_bytes < 65536 || self.max_planner_bytes > 33554432 {
            return Err(Error::JointReservation);
        }
        if self.max_summary_gap_bytes > MAX_QUERY_BYTES {
            return Err(Error::JointGap);
        }
        Ok(self.max_planner_bytes + 2 * self.max_range_bytes as usize + 8388608)
    }
}

/// A range of the plan: which file it is read from, the index or the raw pages, and where.
#[derive(Clone, Copy, Debug, PartialEq, Eq, Structural)]
pub struct PlanRange {
    pub raw: bool,
    pub offset: u64,
    pub len: u64,
}

/// A range covers a demand.
pub open spec fn covers(r: PlanRange, raw: bool, offset: int, end: int) -> bool {
    r.raw == raw && r.offset <= offset && r.offset + r.len >= end
}

/// The first range that covers a demand.
pub open spec fn first_cover(ranges: Seq<PlanRange>, raw: bool, offset: int, end: int, n: int) -> Option<
    int,
>
    decreases n,
{
    if n <= 0 {
        None
    } else {
        match first_cover(ranges, raw, offset, end, n - 1) {
            Some(i) => Some(i),
            None => if covers(ranges[n - 1], raw, offset, end) {
                Some(n - 1)
            } else {
                None
            },
        }
    }
}

/// What is in the cache of a file.
#[derive(Clone, Copy, Debug, PartialEq, Eq, Structural)]
pub struct Cached {
    pub offset: u64,
    pub len: u64,
}

pub open spec fn cache_holds(c: Cached, offset: int, end: int) -> bool {
    c.len > 0 && c.offset <= offset && end <= c.offset + c.len
}

/// The execution of a plan: every range is read once, when the first demand on it comes.
pub struct Execution {
    pub ranges: Vec<PlanRange>,
    pub loaded: Vec<bool>,
    pub index_cache: Cached,
    pub raw_cache: Cached,
    pub requests: usize,
    pub fetched_bytes: u64,
}

/// How a demand is met: from the cache, or by reading a range of the plan first.
#[derive(Clone, Copy, Debug, PartialEq, Eq, Structural)]
pub struct Demand {
    /// The range to read first.
    pub range: Option<usize>,
    /// Where the demanded bytes begin in the cache.
    pub at: u64,
}

/// What a demand is refused for, or how it is met.
pub open spec fn demand_of(e: Execution, raw: bool, offset: int, length: int) -> Result<Demand, Error> {
    let end = offset + length;
    let cache = if raw {
        e.raw_cache
    } else {
        e.index_cache
    };
    if end > u64::MAX {
        Err(Error::JointOverflow)
    } else if cache_holds(cache, offset, end) {
        Ok(Demand { range: None, at: (offset - cache.offset) as u64 })
    } else {
        match first_cover(e.ranges@, raw, offset, end, e.ranges@.len() as int) {
            None => Err(Error::JointDemand),
            Some(i) => if e.loaded@[i] {
                Err(Error::JointRevisit)
            } else {
                Ok(
                    Demand {
                        range: Some(i as usize),
                        at: (offset - e.ranges@[i].offset) as u64,
                    },
                )
            },
        }
    }
}

impl Execution {
    pub open spec fn wf(&self) -> bool {
        &&& self.loaded@.len() == self.ranges@.len()
        &&& self.index_cache.offset + self.index_cache.len <= u64::MAX
        &&& self.raw_cache.offset + self.raw_cache.len <= u64::MAX
        &&& forall|i: int|
            0 <= i < self.ranges@.len() ==> (#[trigger] self.ranges@[i]).offset
                + self.ranges@[i].len <= u64::MAX
    }

    pub fn new(ranges: Vec<PlanRange>, requests: usize, fetched_bytes: u64) -> (r: Execution)
        requires
            forall|i: int|
                0 <= i < ranges@.len() ==> (#[trigger] ranges@[i]).offset + ranges@[i].len
                    <= u64::MAX,
        ensures
            r.wf(),
            r.ranges@ == ranges@,
            r.loaded@ == Seq::new(ranges@.len(), |i: int| false),
            r.requests == requests,
            r.fetched_bytes == fetched_bytes,
            r.index_cache == (Cached { offset: 0, len: 0 }),
            r.raw_cache == (Cached { offset: 0, len: 0 }),
    {
        let n: usize = ranges.len();
        let loaded: Vec<bool> = vec![false; n];
        assert(loaded@ =~= Seq::new(ranges@.len(), |i: int| false));
        Execution {
            ranges,
            loaded,
            index_cache: Cached { offset: 0, len: 0 },
            raw_cache: Cached { offset: 0, len: 0 },
            requests,
            fetched_bytes,
        }
    }

    /// Take a demand: the range to read for it, if any, becomes what the cache holds.
    pub fn read(&mut self, raw: bool, offset: u64, length: usize) -> (r: Result<Demand, Error>)
        requires
            old(self).wf(),
            length >= 1,
        ensures
            final(self).wf(),
            r == demand_of(*old(self), raw, offset as int, length as int),
            final(self).ranges@ == old(self).ranges@,
            final(self).requests == old(self).requests,
            final(self).fetched_bytes == old(self).fetched_bytes,
            r is Ok ==> cache_holds(
                if raw {
                    final(self).raw_cache
                } else {
                    final(self).index_cache
                },
                offset as int,
                offset + length,
            ),
            match r {
                Ok(Demand { range: Some(i), at }) => {
                    let range = old(self).ranges@[i as int];
                    let held = Cached { offset: range.offset, len: range.len };
                    &&& i < old(self).ranges@.len()
                    &&& !old(self).loaded@[i as int]
                    &&& final(self).loaded@ == old(self).loaded@.update(i as int, true)
                    &&& final(self).raw_cache == (if raw {
                        held
                    } else {
                        old(self).raw_cache
                    })
                    &&& final(self).index_cache == (if raw {
                        old(self).index_cache
                    } else {
                        held
                    })
                },
                _ => *final(self) == *old(self),
            },
    {
        let end: u64 = match offset.checked_add(length as u64) {
            Some(end) => end,
            None => {
                return Err(Error::JointOverflow);
            },
        };
        let cache = if raw {
            self.raw_cache
        } else {
            self.index_cache
        };
        if cache.len > 0 && cache.offset <= offset && end <= cache.offset + cache.len {
            return Ok(Demand { range: None, at: offset - cache.offset });
        }
        let total: usize = self.ranges.len();
        let mut i: usize = 0;
        while i < total
            invariant
                total == self.ranges@.len(),
                self.wf(),
                end == offset + length,
                i <= total,
                first_cover(self.ranges@, raw, offset as int, end as int, i as int) is None,
                *self == *old(self),
                length >= 1,
                !cache_holds(
                    if raw {
                        self.raw_cache
                    } else {
                        self.index_cache
                    },
                    offset as int,
                    end as int,
                ),
            decreases total - i,
        {
            let r = self.ranges[i];
            if r.raw == raw && r.offset <= offset && r.offset + r.len >= end {
                proof {
                    lemma_first_cover(
                        self.ranges@,
                        raw,
                        offset as int,
                        end as int,
                        i as int,
                        total as int,
                    );
                }
                if self.loaded[i] {
                    return Err(Error::JointRevisit);
                }
                self.loaded.set(i, true);
                let held = Cached { offset: r.offset, len: r.len };
                if raw {
                    self.raw_cache = held;
                } else {
                    self.index_cache = held;
                }
                return Ok(Demand { range: Some(i), at: offset - r.offset });
            }
            i += 1;
        }
        Err(Error::JointDemand)
    }

    /// The plan was carried out: every range was read, and no more than that.
    pub fn finish(&self, reads: usize, bytes: u64) -> (r: Result<(), Error>)
        ensures
            r == (if exists|i: int| 0 <= i < self.loaded@.len() && !#[trigger] self.loaded@[i] {
                Err::<(), Error>(Error::JointUnread)
            } else if reads != self.requests || bytes != self.fetched_bytes {
                Err(Error::JointIo)
            } else {
                Ok(())
            }),
    {
        let mut i: usize = 0;
        while i < self.loaded.len()
            invariant
                i <= self.loaded@.len(),
                forall|k: int| 0 <= k < i ==> #[trigger] self.loaded@[k],
            decreases self.loaded.len() - i,
        {
            if !self.loaded[i] {
                return Err(Error::JointUnread);
            }
            i += 1;
        }
        if reads != self.requests || bytes != self.fetched_bytes {
            return Err(Error::JointIo);
        }
        Ok(())
    }
}

proof fn lemma_first_cover(
    ranges: Seq<PlanRange>,
    raw: bool,
    offset: int,
    end: int,
    i: int,
    n: int,
)
    requires
        0 <= i < n <= ranges.len(),
        first_cover(ranges, raw, offset, end, i) is None,
        covers(ranges[i], raw, offset, end),
    ensures
        first_cover(ranges, raw, offset, end, n) == Some(i),
    decreases n,
{
    if n - 1 > i {
        lemma_first_cover(ranges, raw, offset, end, i, n - 1);
    }
}

/// Where nodes lie, and how many cells of a node the geometry covers in part or whole.
pub trait Geometry {
    spec fn relation(&self, node: int) -> Relation;

    spec fn covered(&self, node: int) -> int;

    fn classify(&self, node: usize) -> (r: Relation)
        ensures
            r == self.relation(node as int),
    ;

    fn boundary_cells(&self, node: usize) -> (r: usize)
        ensures
            r == self.covered(node as int),
    ;
}

/// What is known of every node of an index.
pub struct Surveyed {
    pub relations: Vec<Relation>,
    pub cells: Vec<usize>,
}

impl Geometry for Surveyed {
    open spec fn relation(&self, node: int) -> Relation {
        if 0 <= node < self.relations@.len() {
            self.relations@[node]
        } else {
            Relation::Outside
        }
    }

    open spec fn covered(&self, node: int) -> int {
        if 0 <= node < self.cells@.len() {
            self.cells@[node] as int
        } else {
            0
        }
    }

    fn classify(&self, node: usize) -> (r: Relation) {
        if node < self.relations.len() {
            self.relations[node]
        } else {
            Relation::Outside
        }
    }

    fn boundary_cells(&self, node: usize) -> (r: usize) {
        if node < self.cells.len() {
            self.cells[node]
        } else {
            0
        }
    }
}

/// A node of the cover forest: its record, whether it lies inside, the nodes that may stand for
/// it, its covered cells where only they may, and what reducing its summary or its cells costs.
pub struct ForestNode {
    pub record: usize,
    pub certified: bool,
    pub children: Vec<usize>,
    pub raw_cells: Option<usize>,
    pub reduction_ns: Option<u64>,
}

/// A node of the cover forest.
pub ghost struct Cover {
    pub record: int,
    pub certified: bool,
    pub children: Seq<int>,
    pub raw_cells: Option<int>,
    pub reduction_ns: Option<int>,
}

pub open spec fn cover_of(n: ForestNode) -> Cover {
    Cover {
        record: n.record as int,
        certified: n.certified,
        children: n.children@.map_values(|c: usize| c as int),
        raw_cells: match n.raw_cells {
            Some(c) => Some(c as int),
            None => None,
        },
        reduction_ns: match n.reduction_ns {
            Some(c) => Some(c as int),
            None => None,
        },
    }
}

pub open spec fn forest_of(nodes: Seq<ForestNode>) -> Seq<Cover> {
    nodes.map_values(|n: ForestNode| cover_of(n))
}

/// What limits the forest.
pub struct ForestLimits {
    pub vertices: usize,
    pub selected_bands: u64,
    pub groups: usize,
    pub raw_size: u64,
    pub options: JointQueryOptions,
    pub forbidden: Vec<usize>,
}

impl ForestLimits {
    /// What taking the summary of a node costs.
    pub open spec fn summary_cost(&self) -> int {
        self.options.summary_reduction_ns * self.selected_bands
    }

    /// What one band of some raw cells costs.
    pub open spec fn band_cost(&self, cells: int) -> int {
        self.options.raw_cell_reduction_ns * cells
    }

    /// What some raw cells cost.
    pub open spec fn raw_cost(&self, cells: int) -> int {
        self.band_cost(cells) * self.selected_bands
    }

    /// What a node that lies inside costs, where it does.
    pub open spec fn certified_cost(&self, inside: bool) -> Option<int> {
        if inside {
            Some(self.summary_cost())
        } else {
            None
        }
    }
}

/// The nodes of the first `i` children of a node, numbered from `base`, and which of them are the
/// roots.
pub open spec fn below<G: Geometry>(
    g: &G,
    limits: ForestLimits,
    levels: Seq<(int, int, int)>,
    node: int,
    inside: bool,
    base: int,
    i: int,
) -> (Seq<Cover>, Seq<int>)
    decreases level_at(levels, node), 0int, i,
{
    if i <= 0 {
        (Seq::empty(), Seq::empty())
    } else {
        let (nodes, roots) = below(g, limits, levels, node, inside, base, i - 1);
        let child = children_of(levels, node)[i - 1];
        if !(0 <= level_at(levels, child) < level_at(levels, node)) {
            (nodes, roots)
        } else {
            let more = tree(g, limits, levels, child, inside, base + nodes.len());
            if more.len() == 0 {
                (nodes, roots)
            } else {
                (nodes + more, roots.push(base + nodes.len()))
            }
        }
    }
}

/// The part of the forest below a node, numbered from `base`: nothing where the geometry does not
/// touch it. Every node inside it may be taken by its summary; one that the boundary crosses by
/// its children, or by its raw cells.
pub open spec fn tree<G: Geometry>(
    g: &G,
    limits: ForestLimits,
    levels: Seq<(int, int, int)>,
    node: int,
    inherited: bool,
    base: int,
) -> Seq<Cover>
    decreases level_at(levels, node), 1int, 0int,
{
    let inside = inherited || g.relation(node) == Relation::Inside;
    if !inherited && g.relation(node) == Relation::Outside {
        Seq::empty()
    } else if level_at(levels, node) > 0 {
        let (nodes, roots) = below(
            g,
            limits,
            levels,
            node,
            inside,
            base + 1,
            children_of(levels, node).len() as int,
        );
        if !inside && roots.len() == 0 {
            Seq::empty()
        } else {
            seq![
                Cover {
                    record: node,
                    certified: inside,
                    children: roots,
                    raw_cells: None,
                    reduction_ns: limits.certified_cost(inside),
                },
            ] + nodes
        }
    } else if inside {
        seq![
            Cover {
                record: node,
                certified: true,
                children: Seq::empty(),
                raw_cells: None,
                reduction_ns: Some(limits.summary_cost()),
            },
        ]
    } else if g.covered(node) == 0 {
        Seq::empty()
    } else {
        seq![
            Cover {
                record: node,
                certified: false,
                children: Seq::empty(),
                raw_cells: Some(g.covered(node)),
                reduction_ns: Some(limits.raw_cost(g.covered(node))),
            },
        ]
    }
}

/// There are nodes below a node just where there are roots.
proof fn lemma_rootless<G: Geometry>(
    g: &G,
    limits: ForestLimits,
    levels: Seq<(int, int, int)>,
    node: int,
    inside: bool,
    base: int,
    i: int,
)
    ensures
        below(g, limits, levels, node, inside, base, i).1.len() == 0 <==> below(
            g,
            limits,
            levels,
            node,
            inside,
            base,
            i,
        ).0.len() == 0,
    decreases i,
{
    if i > 0 {
        lemma_rootless(g, limits, levels, node, inside, base, i - 1);
    }
}

/// The index that a forest stands over.
pub ghost struct Terrain {
    pub levels: Seq<(int, int, int)>,
    pub tile_edge: int,
    pub width: int,
    pub height: int,
}

impl Terrain {
    /// The cells of a node.
    pub open spec fn cells(self, node: int) -> int {
        let b = box_at(self.levels, self.tile_edge, self.width, self.height, node);
        (b.2 - b.0) * (b.3 - b.1)
    }
}

/// What building a forest has counted: the nodes that the geometry was asked about, the reads
/// that its actions take, the cells that were tested against the boundary, by its corners, and
/// the nodes.
pub ghost struct Counts {
    pub candidates: int,
    pub spans: int,
    pub boundary_work: int,
    pub nodes: int,
}

/// What is counted with the first `i` children of a node, or the first limit that they break.
pub open spec fn counted_below<G: Geometry>(
    g: &G,
    limits: ForestLimits,
    t: Terrain,
    node: int,
    inside: bool,
    c: Counts,
    i: int,
) -> Result<Counts, Error>
    decreases level_at(t.levels, node), 0int, i,
{
    if i <= 0 {
        Ok(c)
    } else {
        match counted_below(g, limits, t, node, inside, c, i - 1) {
            Err(e) => Err(e),
            Ok(d) => {
                let child = children_of(t.levels, node)[i - 1];
                if !(0 <= level_at(t.levels, child) < level_at(t.levels, node)) {
                    Ok(d)
                } else {
                    counted(g, limits, t, child, inside, d)
                }
            },
        }
    }
}

/// What is counted with a tile that the boundary crosses, or the first limit that it breaks: the
/// work of testing its cells, and where some are covered that the tile may be read raw, that its
/// page fits a range, what its cells cost, and the reads of its pages.
pub open spec fn counted_tile<G: Geometry>(
    g: &G,
    limits: ForestLimits,
    t: Terrain,
    node: int,
    c: Counts,
) -> Result<Counts, Error> {
    let work = c.boundary_work + t.cells(node) * limits.vertices;
    let cells = g.covered(node);
    if work > WORK_LIMIT {
        Err(Error::JointBoundaryWork)
    } else if cells == 0 {
        Ok(Counts { boundary_work: work, ..c })
    } else if limits.forbidden@.contains(node as usize) {
        Err(Error::ForbiddenRead)
    } else if limits.raw_size > limits.options.max_range_bytes {
        Err(Error::JointRawPage)
    } else if limits.band_cost(cells) > u64::MAX || limits.raw_cost(cells) > u64::MAX {
        Err(Error::JointRawCost)
    } else if c.spans + limits.groups > MAX_SPANS {
        Err(Error::JointSpans)
    } else {
        Ok(
            Counts {
                boundary_work: work,
                spans: c.spans + limits.groups,
                nodes: c.nodes + 1,
                ..c
            },
        )
    }
}

/// What is counted with the part of the forest below a node, or the first limit that it breaks.
/// A node that is not known to lie inside is asked about; one that lies inside takes a read for
/// its summary; a parent without anything below it is no node.
pub open spec fn counted<G: Geometry>(
    g: &G,
    limits: ForestLimits,
    t: Terrain,
    node: int,
    inherited: bool,
    c: Counts,
) -> Result<Counts, Error>
    decreases level_at(t.levels, node), 1int, 0int,
{
    let inside = inherited || g.relation(node) == Relation::Inside;
    let asked = Counts {
        candidates: if inherited {
            c.candidates
        } else {
            c.candidates + 1
        },
        ..c
    };
    let taken = Counts {
        spans: if inside {
            asked.spans + 1
        } else {
            asked.spans
        },
        ..asked
    };
    if asked.candidates * limits.vertices > WORK_LIMIT {
        Err(Error::JointPredicateWork)
    } else if !inherited && g.relation(node) == Relation::Outside {
        Ok(asked)
    } else if c.nodes >= MAX_NODES {
        Err(Error::JointNodes)
    } else if inside && limits.summary_cost() > u64::MAX {
        Err(Error::JointSummaryCost)
    } else if level_at(t.levels, node) > 0 {
        match counted_below(
            g,
            limits,
            t,
            node,
            inside,
            Counts { nodes: c.nodes + 1, ..taken },
            children_of(t.levels, node).len() as int,
        ) {
            Err(e) => Err(e),
            Ok(d) => if d.spans > MAX_SPANS {
                Err(Error::JointSpans)
            } else if !inside && d.nodes == c.nodes + 1 {
                Ok(Counts { nodes: c.nodes, ..d })
            } else {
                Ok(d)
            },
        }
    } else if !inside {
        counted_tile(g, limits, t, node, taken)
    } else if taken.spans > MAX_SPANS {
        Err(Error::JointSpans)
    } else {
        Ok(Counts { nodes: c.nodes + 1, ..taken })
    }
}

/// Nodes that keep to the limits: none of a forbidden tile is read raw, a raw page fits a range,
/// and each action's cost fits its field.
pub open spec fn within_limits(limits: ForestLimits, nodes: Seq<Cover>) -> bool {
    forall|k: int|
        #![trigger nodes[k]]
        0 <= k < nodes.len() ==> {
            &&& nodes[k].raw_cells is Some ==> !limits.forbidden@.contains(nodes[k].record as usize)
                && limits.raw_size <= limits.options.max_range_bytes
            &&& nodes[k].reduction_ns matches Some(cost) ==> cost <= u64::MAX
            &&& nodes[k].certified || nodes[k].raw_cells is Some ==> nodes[k].reduction_ns is Some
        }
}

proof fn lemma_joined(limits: ForestLimits, a: Seq<Cover>, b: Seq<Cover>)
    requires
        within_limits(limits, a),
        within_limits(limits, b),
    ensures
        within_limits(limits, a + b),
{
    let all = a + b;
    assert forall|k: int| #![trigger all[k]] 0 <= k < all.len() implies {
        &&& all[k].raw_cells is Some ==> !limits.forbidden@.contains(all[k].record as usize)
            && limits.raw_size <= limits.options.max_range_bytes
        &&& all[k].reduction_ns matches Some(cost) ==> cost <= u64::MAX
        &&& all[k].certified || all[k].raw_cells is Some ==> all[k].reduction_ns is Some
    } by {
        if k < a.len() {
            assert(all[k] == a[k]);
        } else {
            assert(all[k] == b[k - a.len()]);
        }
    }
}

proof fn lemma_limits_below<G: Geometry>(
    g: &G,
    limits: ForestLimits,
    t: Terrain,
    node: int,
    inside: bool,
    c: Counts,
    base: int,
    i: int,
)
    requires
        counted_below(g, limits, t, node, inside, c, i) is Ok,
        c.candidates * limits.vertices <= WORK_LIMIT,
        inside ==> limits.summary_cost() <= u64::MAX,
    ensures
        within_limits(limits, below(g, limits, t.levels, node, inside, base, i).0),
        counted_below(g, limits, t, node, inside, c, i)->Ok_0.candidates * limits.vertices
            <= WORK_LIMIT,
    decreases level_at(t.levels, node), 0int, i,
{
    if i > 0 {
        lemma_limits_below(g, limits, t, node, inside, c, base, i - 1);
        let child = children_of(t.levels, node)[i - 1];
        if 0 <= level_at(t.levels, child) < level_at(t.levels, node) {
            let d = counted_below(g, limits, t, node, inside, c, i - 1)->Ok_0;
            let nodes = below(g, limits, t.levels, node, inside, base, i - 1).0;
            lemma_limits(g, limits, t, child, inside, d, base + nodes.len());
            lemma_joined(
                limits,
                nodes,
                tree(g, limits, t.levels, child, inside, base + nodes.len()),
            );
        }
    }
}

/// A forest that is counted keeps to its limits.
proof fn lemma_limits<G: Geometry>(
    g: &G,
    limits: ForestLimits,
    t: Terrain,
    node: int,
    inherited: bool,
    c: Counts,
    base: int,
)
    requires
        counted(g, limits, t, node, inherited, c) is Ok,
    ensures
        within_limits(limits, tree(g, limits, t.levels, node, inherited, base)),
        counted(g, limits, t, node, inherited, c)->Ok_0.candidates * limits.vertices <= WORK_LIMIT,
    decreases level_at(t.levels, node), 1int, 0int,
{
    let inside = inherited || g.relation(node) == Relation::Inside;
    if !(!inherited && g.relation(node) == Relation::Outside) && level_at(t.levels, node) > 0 {
        let taken = Counts {
            candidates: if inherited {
                c.candidates
            } else {
                c.candidates + 1
            },
            spans: if inside {
                c.spans + 1
            } else {
                c.spans
            },
            nodes: c.nodes + 1,
            ..c
        };
        let all = children_of(t.levels, node).len() as int;
        lemma_limits_below(g, limits, t, node, inside, taken, base + 1, all);
        let (nodes, roots) = below(g, limits, t.levels, node, inside, base + 1, all);
        let own = Cover {
            record: node,
            certified: inside,
            children: roots,
            raw_cells: None,
            reduction_ns: limits.certified_cost(inside),
        };
        lemma_joined(limits, seq![own], nodes);
    }
}

/// The forest as it grows.
pub struct Forest {
    pub layout: SummaryLayout,
    pub width: usize,
    pub height: usize,
    pub flat: bool,
    pub nodes: Vec<ForestNode>,
    pub spans: usize,
    pub candidates: usize,
    pub boundary_work: usize,
}

impl Forest {
    pub open spec fn levels(&self) -> Seq<(int, int, int)> {
        widen(self.layout.levels@)
    }

    pub open spec fn terrain(&self) -> Terrain {
        Terrain {
            levels: self.levels(),
            tile_edge: self.layout.tile_edge as int,
            width: self.width as int,
            height: self.height as int,
        }
    }

    pub open spec fn counts(&self) -> Counts {
        Counts {
            candidates: self.candidates as int,
            spans: self.spans as int,
            boundary_work: self.boundary_work as int,
            nodes: self.nodes@.len() as int,
        }
    }

    pub open spec fn wf(&self) -> bool {
        &&& self.layout.of_grid(self.width as int, self.height as int, self.flat)
        &&& self.nodes@.len() <= MAX_NODES
        &&& self.spans <= MAX_SPANS + self.nodes@.len()
        &&& self.boundary_work <= WORK_LIMIT
        &&& self.candidates <= usize::MAX - 1
    }

    pub open spec fn same_index(&self, other: &Forest) -> bool {
        &&& self.layout == other.layout
        &&& self.width == other.width
        &&& self.height == other.height
        &&& self.flat == other.flat
    }

    /// Add the part of the forest below a node. The result is where its root stands.
    #[verifier::rlimit(60)]
    #[verifier::spinoff_prover]
    pub fn node<G: Geometry, C: Cancel>(
        &mut self,
        g: &G,
        limits: &ForestLimits,
        node: usize,
        inherited: bool,
        cancel: &C,
    ) -> (r: Result<Option<usize>, Error>)
        requires
            old(self).wf(),
            node < end_of(old(self).levels()),
            limits.groups <= 20,
            limits.vertices >= 1,
        ensures
            final(self).same_index(old(self)),
            r is Ok ==> final(self).wf(),
            ({
                let base = old(self).nodes@.len() as int;
                let part = tree(g, *limits, old(self).levels(), node as int, inherited, base);
                ended(
                    cancel,
                    r,
                    match counted(
                        g,
                        *limits,
                        old(self).terrain(),
                        node as int,
                        inherited,
                        old(self).counts(),
                    ) {
                        Err(e) => r == Err::<Option<usize>, Error>(e),
                        Ok(c) => {
                            &&& r == Ok::<Option<usize>, Error>(
                                if part.len() == 0 {
                                    None
                                } else {
                                    Some(base as usize)
                                },
                            )
                            &&& final(self).counts() == c
                            &&& forest_of(final(self).nodes@) == forest_of(old(self).nodes@) + part
                            &&& within_limits(*limits, part)
                            &&& final(self).candidates * limits.vertices <= WORK_LIMIT
                        },
                    },
                )
            }),
        decreases node, 1int, 0int,
    {
        check_cancel(cancel)?;
        let ghost levels = self.levels();
        let ghost t = self.terrain();
        let ghost start = self.counts();
        let ghost base = self.nodes@.len() as int;
        let ghost before = self.nodes@;
        proof {
            if counted(g, *limits, t, node as int, inherited, start) is Ok {
                lemma_limits(g, *limits, t, node as int, inherited, start, base);
            }
        }
        let relation = if inherited {
            Relation::Inside
        } else {
            self.candidates = self.candidates + 1;
            g.classify(node)
        };
        let work: u128 = self.candidates as u128;
        let corners: u128 = limits.vertices as u128;
        assert(0 <= work * corners <= u128::MAX) by (nonlinear_arith)
            requires
                0 <= work <= 0xffff_ffff_ffff_ffff,
                0 <= corners <= 0xffff_ffff_ffff_ffff,
        ;
        if work * corners > WORK_LIMIT as u128 {
            return Err(Error::JointPredicateWork);
        }
        assert(work <= WORK_LIMIT) by (nonlinear_arith)
            requires
                work * corners <= WORK_LIMIT,
                corners >= 1,
                work >= 0,
        ;
        match relation {
            Relation::Outside => {
                assert(forest_of(self.nodes@) =~= forest_of(before) + Seq::empty());
                return Ok(None);
            },
            _ => {},
        }
        if self.nodes.len() >= MAX_NODES {
            return Err(Error::JointNodes);
        }
        let inside = match relation {
            Relation::Inside => true,
            _ => false,
        };
        let mut reduction_ns: Option<u64> = None;
        if inside {
            self.spans = self.spans + 1;
            match limits.options.summary_reduction_ns.checked_mul(limits.selected_bands) {
                Some(cost) => {
                    reduction_ns = Some(cost);
                },
                None => return Err(Error::JointSummaryCost),
            }
        }
        let level: usize = self.layout.level(node);
        if level > 0 {
            return self.parent(g, limits, node, inside, reduction_ns, cancel, Ghost(inherited), Ghost(start));
        }
        if !inside {
            return self.tile(g, limits, node, Ghost(start));
        }
        if self.spans > MAX_SPANS {
            return Err(Error::JointSpans);
        }
        let index: usize = self.nodes.len();
        let children: Vec<usize> = Vec::new();
        self.nodes.push(
            ForestNode { record: node, certified: true, children, raw_cells: None, reduction_ns },
        );
        proof {
            let part = tree(g, *limits, levels, node as int, inherited, base);
            assert(children@.map_values(|c: usize| c as int) =~= Seq::<int>::empty());
            assert(forest_of(self.nodes@) =~= forest_of(before) + part);
        }
        Ok(Some(index))
    }

    /// Add a parent with what stands below it.
    #[verifier::rlimit(60)]
    fn parent<G: Geometry, C: Cancel>(
        &mut self,
        g: &G,
        limits: &ForestLimits,
        node: usize,
        inside: bool,
        reduction_ns: Option<u64>,
        cancel: &C,
        Ghost(inherited): Ghost<bool>,
        Ghost(start): Ghost<Counts>,
    ) -> (r: Result<Option<usize>, Error>)
        requires
            old(self).layout.of_grid(old(self).width as int, old(self).height as int, old(self).flat),
            old(self).nodes@.len() < MAX_NODES,
            old(self).spans <= MAX_SPANS + old(self).nodes@.len() + 1,
            old(self).boundary_work <= WORK_LIMIT,
            old(self).candidates <= usize::MAX - 1,
            node < end_of(old(self).levels()),
            level_at(old(self).levels(), node as int) > 0,
            limits.groups <= 20,
            limits.vertices >= 1,
            inside == (inherited || g.relation(node as int) == Relation::Inside),
            inherited || g.relation(node as int) != Relation::Outside,
            reduction_ns == (if inside {
                Some(limits.summary_cost() as u64)
            } else {
                None
            }),
            inside ==> limits.summary_cost() <= u64::MAX,
            old(self).candidates * limits.vertices <= WORK_LIMIT,
            start.nodes == old(self).nodes@.len(),
            start.boundary_work == old(self).boundary_work,
            old(self).candidates == start.candidates + (if inherited {
                0int
            } else {
                1int
            }),
            old(self).spans == start.spans + (if inside {
                1int
            } else {
                0int
            }),
        ensures
            final(self).same_index(old(self)),
            r is Ok ==> final(self).wf(),
            r == Err::<Option<usize>, Error>(Error::Cancelled) ==> !cancel.never(),
            r != Err::<Option<usize>, Error>(Error::Cancelled) ==> ({
                let base = old(self).nodes@.len() as int;
                let part = tree(g, *limits, old(self).levels(), node as int, inherited, base);
                match counted(g, *limits, old(self).terrain(), node as int, inherited, start) {
                    Err(e) => r == Err::<Option<usize>, Error>(e),
                    Ok(c) => {
                        &&& r == Ok::<Option<usize>, Error>(
                            if part.len() == 0 {
                                None
                            } else {
                                Some(base as usize)
                            },
                        )
                        &&& final(self).counts() == c
                        &&& forest_of(final(self).nodes@) == forest_of(old(self).nodes@) + part
                    },
                }
            }),
        decreases node, 0int, 1int,
    {
        let ghost levels = self.levels();
        let ghost t = self.terrain();
        let ghost base = self.nodes@.len() as int;
        let ghost before = self.nodes@;
        let ghost all = children_of(levels, node as int).len() as int;
        let index: usize = self.nodes.len();
        self.nodes.push(
            ForestNode {
                record: node,
                certified: inside,
                children: Vec::new(),
                raw_cells: None,
                reduction_ns,
            },
        );
        let ghost placed = forest_of(before).push(
            Cover {
                record: node as int,
                certified: inside,
                children: Seq::empty(),
                raw_cells: None,
                reduction_ns: limits.certified_cost(inside),
            },
        );
        proof {
            let last = self.nodes@[base];
            assert(last.children@.map_values(|c: usize| c as int) =~= Seq::<int>::empty());
            assert(forest_of(self.nodes@) =~= placed);
        }
        let ghost taken = self.counts();
        let children: Vec<usize> = match self.below_node(g, limits, node, inside, cancel) {
            Ok(roots) => roots,
            Err(e) => {
                return Err(e);
            },
        };
        let ghost held = self.nodes@;
        let ghost (more, roots) = below(g, *limits, levels, node as int, inside, base + 1, all);
        proof {
            lemma_rootless(g, *limits, levels, node as int, inside, base + 1, all);
            assert(forest_of(held).len() == held.len());
            assert(forest_of(held) == placed + more);
            assert(children@.map_values(|c: usize| c as int).len() == children@.len());
        }
        if self.spans > MAX_SPANS {
            return Err(Error::JointSpans);
        }
        if !inside && children.len() == 0 {
            proof {
                assert(placed + more =~= placed);
                assert(placed.drop_last() =~= forest_of(before));
            }
            let popped = self.nodes.pop();
            assert(forest_of(self.nodes@) =~= forest_of(held).drop_last());
            assert(forest_of(before) + Seq::<Cover>::empty() =~= forest_of(before));
            return Ok(None);
        }
        self.nodes.set(
            index,
            ForestNode { record: node, certified: inside, children, raw_cells: None, reduction_ns },
        );
        proof {
            let part = tree(g, *limits, levels, node as int, inherited, base);
            assert(forest_of(self.nodes@) =~= forest_of(held).update(
                base,
                Cover {
                    record: node as int,
                    certified: inside,
                    children: roots,
                    raw_cells: None,
                    reduction_ns: limits.certified_cost(inside),
                },
            ));
            assert(forest_of(self.nodes@) =~= forest_of(before) + part);
        }
        Ok(Some(index))
    }

    /// Add a tile that the boundary crosses.
    #[verifier::rlimit(60)]
    fn tile<G: Geometry>(&mut self, g: &G, limits: &ForestLimits, node: usize, Ghost(start): Ghost<Counts>) -> (r:
        Result<Option<usize>, Error>)
        requires
            old(self).wf(),
            old(self).nodes@.len() < MAX_NODES,
            node < end_of(old(self).levels()),
            level_at(old(self).levels(), node as int) == 0,
            limits.groups <= 20,
            limits.vertices >= 1,
            g.relation(node as int) == Relation::Boundary,
            old(self).candidates * limits.vertices <= WORK_LIMIT,
            old(self).counts() == (Counts { candidates: start.candidates + 1, ..start }),
        ensures
            final(self).same_index(old(self)),
            r is Ok ==> final(self).wf(),
            ({
                let base = old(self).nodes@.len() as int;
                let part = tree(g, *limits, old(self).levels(), node as int, false, base);
                match counted(g, *limits, old(self).terrain(), node as int, false, start) {
                    Err(e) => r == Err::<Option<usize>, Error>(e) && e != Error::Cancelled,
                    Ok(c) => {
                        &&& r == Ok::<Option<usize>, Error>(
                            if part.len() == 0 {
                                None
                            } else {
                                Some(base as usize)
                            },
                        )
                        &&& final(self).counts() == c
                        &&& forest_of(final(self).nodes@) == forest_of(old(self).nodes@) + part
                    },
                }
            }),
    {
        let ghost levels = self.levels();
        let ghost t = self.terrain();
        let ghost base = self.nodes@.len() as int;
        let ghost before = self.nodes@;
        let corners: u128 = limits.vertices as u128;
        let b = match self.layout.bounds(self.width, self.height, node) {
            Ok(b) => b,
            Err(_) => {
                assert(false);
                [0usize, 0usize, 0usize, 0usize]
            },
        };
        proof {
            crate::layout::lemma_node(
                self.width as int,
                self.height as int,
                self.layout.tile_edge as int,
                self.flat,
                node as int,
            );
        }
        let w: u128 = (b[2] - b[0]) as u128;
        let h: u128 = (b[3] - b[1]) as u128;
        assert(0 <= w * h <= 0xffff_ffff_ffff_ffff * 0xffff_ffff_ffff_ffff) by (nonlinear_arith)
            requires
                0 <= w <= 0xffff_ffff_ffff_ffff,
                0 <= h <= 0xffff_ffff_ffff_ffff,
        ;
        let cells: u128 = w * h;
        assert(cells == t.cells(node as int));
        let room: u128 = (WORK_LIMIT - self.boundary_work) as u128;
        proof {
            let q = room as int / corners as int;
            vstd::arithmetic::div_mod::lemma_fundamental_div_mod(room as int, corners as int);
            assert((cells <= q) == (cells * corners <= room)) by (nonlinear_arith)
                requires
                    0 <= cells,
                    corners >= 1,
                    room == corners * q + room as int % corners as int,
                    0 <= room as int % (corners as int) < corners,
            ;
            assert(cells * corners >= 0) by (nonlinear_arith)
                requires
                    cells >= 0,
                    corners >= 0,
            ;
        }
        if cells > room / corners {
            return Err(Error::JointBoundaryWork);
        }
        self.boundary_work = self.boundary_work + (cells * corners) as usize;
        let found: usize = g.boundary_cells(node);
        if found == 0 {
            assert(forest_of(self.nodes@) =~= forest_of(before) + Seq::empty());
            return Ok(None);
        }
        if is_listed(&limits.forbidden, node) {
            return Err(Error::ForbiddenRead);
        }
        if limits.raw_size > limits.options.max_range_bytes {
            return Err(Error::JointRawPage);
        }
        self.spans = self.spans + limits.groups;
        let one: u64 = match limits.options.raw_cell_reduction_ns.checked_mul(found as u64) {
            Some(one) => one,
            None => return Err(Error::JointRawCost),
        };
        let cost: u64 = match one.checked_mul(limits.selected_bands) {
            Some(cost) => cost,
            None => return Err(Error::JointRawCost),
        };
        if self.spans > MAX_SPANS {
            return Err(Error::JointSpans);
        }
        let index: usize = self.nodes.len();
        let children: Vec<usize> = Vec::new();
        self.nodes.push(
            ForestNode {
                record: node,
                certified: false,
                children,
                raw_cells: Some(found),
                reduction_ns: Some(cost),
            },
        );
        proof {
            let part = tree(g, *limits, levels, node as int, false, base);
            assert(children@.map_values(|c: usize| c as int) =~= Seq::<int>::empty());
            assert(forest_of(self.nodes@) =~= forest_of(before) + part);
        }
        Ok(Some(index))
    }

    #[verifier::rlimit(60)]
    fn below_node<G: Geometry, C: Cancel>(
        &mut self,
        g: &G,
        limits: &ForestLimits,
        node: usize,
        inside: bool,
        cancel: &C,
    ) -> (r: Result<Vec<usize>, Error>)
        requires
            old(self).wf(),
            node < end_of(old(self).levels()),
            level_at(old(self).levels(), node as int) > 0,
            limits.groups <= 20,
            limits.vertices >= 1,
        ensures
            final(self).same_index(old(self)),
            r is Ok ==> final(self).wf(),
            r == Err::<Vec<usize>, Error>(Error::Cancelled) ==> !cancel.never(),
            r != Err::<Vec<usize>, Error>(Error::Cancelled) ==> ({
                let base = old(self).nodes@.len() as int;
                let levels = old(self).levels();
                let all = children_of(levels, node as int).len() as int;
                let (more, roots) = below(g, *limits, levels, node as int, inside, base, all);
                match counted_below(
                    g,
                    *limits,
                    old(self).terrain(),
                    node as int,
                    inside,
                    old(self).counts(),
                    all,
                ) {
                    Err(e) => r == Err::<Vec<usize>, Error>(e),
                    Ok(c) => {
                        &&& r is Ok
                        &&& forest_of(final(self).nodes@) == forest_of(old(self).nodes@) + more
                        &&& r->Ok_0@.map_values(|c: usize| c as int) == roots
                        &&& final(self).counts() == c
                    },
                }
            }),
        decreases node, 0int, 0int,
    {
        let ghost levels = self.levels();
        let ghost t = self.terrain();
        let ghost start = self.counts();
        let ghost base = self.nodes@.len() as int;
        let ghost before = self.nodes@;
        let ghost all = children_of(levels, node as int);
        let below_it = match self.layout.children(self.width, self.height, node) {
            Ok(children) => children,
            Err(_) => {
                assert(false);
                Vec::new()
            },
        };
        let mut roots: Vec<usize> = Vec::new();
        let total: usize = below_it.len();
        let mut i: usize = 0;
        assert(forest_of(before) + Seq::<Cover>::empty() =~= forest_of(before));
        assert(roots@.map_values(|c: usize| c as int) =~= Seq::<int>::empty());
        while i < total
            invariant
                i <= total,
                total == below_it@.len(),
                total == all.len(),
                forall|k: int| 0 <= k < total ==> #[trigger] below_it@[k] == all[k],
                all == children_of(levels, node as int),
                levels == old(self).levels(),
                t == old(self).terrain(),
                start == old(self).counts(),
                self.same_index(old(self)),
                self.wf(),
                node < end_of(levels),
                level_at(levels, node as int) > 0,
                limits.groups <= 20,
                limits.vertices >= 1,
                base == old(self).nodes@.len(),
                before == old(self).nodes@,
                counted_below(g, *limits, t, node as int, inside, start, i as int) == Ok::<
                    Counts,
                    Error,
                >(self.counts()),
                ({
                    let (more, found) = below(
                        g,
                        *limits,
                        levels,
                        node as int,
                        inside,
                        base,
                        i as int,
                    );
                    &&& forest_of(self.nodes@) == forest_of(before) + more
                    &&& roots@.map_values(|c: usize| c as int) == found
                }),
            decreases total - i,
        {
            let child: usize = below_it[i];
            proof {
                a_child_is_a_node_below(
                    self.width as int,
                    self.height as int,
                    self.layout.tile_edge as int,
                    self.flat,
                    node as int,
                    i as int,
                );
                crate::layout::lemma_node(
                    self.width as int,
                    self.height as int,
                    self.layout.tile_edge as int,
                    self.flat,
                    child as int,
                );
            }
            let ghost held = self.nodes@;
            let ghost known = roots@;
            let ghost more = below(g, *limits, levels, node as int, inside, base, i as int).0;
            assert(held.len() == base + more.len()) by {
                assert(forest_of(held).len() == held.len());
            }
            match self.node(g, limits, child, inside, cancel) {
                Err(e) => {
                    proof {
                        if e != Error::Cancelled {
                            lemma_broken_below(
                                g,
                                *limits,
                                t,
                                node as int,
                                inside,
                                start,
                                i + 1,
                                total as int,
                            );
                        }
                    }
                    return Err(e);
                },
                Ok(None) => {
                    assert(forest_of(self.nodes@) =~= forest_of(before) + more);
                },
                Ok(Some(at)) => {
                    roots.push(at);
                    assert(roots@.map_values(|c: usize| c as int) =~= known.map_values(
                        |c: usize| c as int,
                    ).push(at as int));
                    assert(forest_of(self.nodes@) =~= forest_of(before) + (more + tree(
                        g,
                        *limits,
                        levels,
                        child as int,
                        inside,
                        held.len() as int,
                    )));
                },
            }
            i += 1;
        }
        Ok(roots)
    }
}

/// A limit that the first children break is broken by all of them.
proof fn lemma_broken_below<G: Geometry>(
    g: &G,
    limits: ForestLimits,
    t: Terrain,
    node: int,
    inside: bool,
    c: Counts,
    i: int,
    n: int,
)
    requires
        i <= n,
        counted_below(g, limits, t, node, inside, c, i) is Err,
    ensures
        counted_below(g, limits, t, node, inside, c, n) == counted_below(
            g,
            limits,
            t,
            node,
            inside,
            c,
            i,
        ),
    decreases n - i,
{
    if i < n {
        lemma_broken_below(g, limits, t, node, inside, c, i, n - 1);
    }
}

fn is_listed(list: &Vec<usize>, value: usize) -> (r: bool)
    ensures
        r == list@.contains(value),
{
    let mut i: usize = 0;
    while i < list.len()
        invariant
            i <= list@.len(),
            forall|k: int| 0 <= k < i ==> #[trigger] list@[k] != value,
        decreases list.len() - i,
    {
        if list[i] == value {
            return true;
        }
        i += 1;
    }
    false
}

/// The trees of the first `n` of some nodes, numbered from `base`, and their roots.
pub open spec fn grove<G: Geometry>(
    g: &G,
    limits: ForestLimits,
    levels: Seq<(int, int, int)>,
    nodes: Seq<usize>,
    base: int,
    n: int,
) -> (Seq<Cover>, Seq<int>)
    decreases n,
{
    if n <= 0 {
        (Seq::empty(), Seq::empty())
    } else {
        let (covers, roots) = grove(g, limits, levels, nodes, base, n - 1);
        let more = tree(g, limits, levels, nodes[n - 1] as int, false, base + covers.len());
        if more.len() == 0 {
            (covers, roots)
        } else {
            (covers + more, roots.push(base + covers.len()))
        }
    }
}

impl Forest {
    /// An empty forest, if the planner's reservation holds one over this index.
    pub fn new(
        layout: SummaryLayout,
        width: usize,
        height: usize,
        flat: bool,
        records: usize,
        options: JointQueryOptions,
    ) -> (r: Result<Forest, Error>)
        requires
            layout.of_grid(width as int, height as int, flat),
        ensures
            ({
                let capacity = if records < MAX_NODES {
                    records as int
                } else {
                    MAX_NODES as int
                };
                if capacity * 512 + 16384 > options.max_planner_bytes {
                    r is Err && r->Err_0 == Error::JointForestMemory
                } else {
                    &&& r matches Ok(f)
                    &&& f.wf()
                    &&& f.nodes@.len() == 0
                    &&& f.layout == layout
                    &&& f.width == width
                    &&& f.height == height
                    &&& f.flat == flat
                    &&& f.spans == 0
                    &&& f.candidates == 0
                    &&& f.boundary_work == 0
                }
            }),
    {
        let capacity: usize = if records < MAX_NODES {
            records
        } else {
            MAX_NODES
        };
        if capacity * 512 + 16384 > options.max_planner_bytes {
            return Err(Error::JointForestMemory);
        }
        Ok(
            Forest {
                layout,
                width,
                height,
                flat,
                nodes: Vec::new(),
                spans: 0,
                candidates: 0,
                boundary_work: 0,
            },
        )
    }

    /// Add the trees of some nodes: the root of a hierarchy, or the tiles of a window.
    #[verifier::rlimit(60)]
    pub fn grow<G: Geometry, C: Cancel>(
        &mut self,
        g: &G,
        limits: &ForestLimits,
        nodes: &Vec<usize>,
        cancel: &C,
    ) -> (r: Result<Vec<usize>, Error>)
        requires
            old(self).wf(),
            limits.groups <= 20,
            limits.vertices >= 1,
            forall|i: int|
                0 <= i < nodes@.len() ==> #[trigger] nodes@[i] < end_of(old(self).levels()),
        ensures
            final(self).same_index(old(self)),
            r is Ok ==> final(self).wf(),
            r == Err::<Vec<usize>, Error>(Error::Cancelled) ==> !cancel.never(),
            cancel.always() && nodes@.len() > 0 ==> r is Err,
            r != Err::<Vec<usize>, Error>(Error::Cancelled) ==> ({
                let base = old(self).nodes@.len() as int;
                let n = nodes@.len() as int;
                let (covers, roots) = grove(g, *limits, old(self).levels(), nodes@, base, n);
                match counted_grove(
                    g,
                    *limits,
                    old(self).terrain(),
                    nodes@,
                    old(self).counts(),
                    n,
                ) {
                    Err(e) => r == Err::<Vec<usize>, Error>(e),
                    Ok(c) => {
                        &&& r is Ok
                        &&& r->Ok_0@.map_values(|c: usize| c as int) == roots
                        &&& final(self).counts() == c
                        &&& forest_of(final(self).nodes@) == forest_of(old(self).nodes@) + covers
                        &&& within_limits(*limits, covers)
                        &&& n > 0 ==> final(self).candidates * limits.vertices <= WORK_LIMIT
                    },
                }
            }),
    {
        let ghost levels = self.levels();
        let ghost t = self.terrain();
        let ghost start = self.counts();
        let ghost base = self.nodes@.len() as int;
        let ghost before = self.nodes@;
        let mut roots: Vec<usize> = Vec::new();
        let mut i: usize = 0;
        assert(forest_of(before) + Seq::<Cover>::empty() =~= forest_of(before));
        assert(roots@.map_values(|c: usize| c as int) =~= Seq::<int>::empty());
        while i < nodes.len()
            invariant
                i <= nodes@.len(),
                self.wf(),
                self.same_index(old(self)),
                levels == old(self).levels(),
                t == old(self).terrain(),
                start == old(self).counts(),
                before == old(self).nodes@,
                base == before.len(),
                limits.groups <= 20,
                limits.vertices >= 1,
                i > 0 ==> !cancel.always() && self.candidates * limits.vertices <= WORK_LIMIT,
                forall|i: int| 0 <= i < nodes@.len() ==> #[trigger] nodes@[i] < end_of(levels),
                counted_grove(g, *limits, t, nodes@, start, i as int) == Ok::<Counts, Error>(
                    self.counts(),
                ),
                ({
                    let (covers, found) = grove(g, *limits, levels, nodes@, base, i as int);
                    &&& forest_of(self.nodes@) == forest_of(before) + covers
                    &&& roots@.map_values(|c: usize| c as int) == found
                    &&& within_limits(*limits, covers)
                }),
            decreases nodes.len() - i,
        {
            let ghost held = self.nodes@;
            let ghost known = roots@;
            let ghost covers = grove(g, *limits, levels, nodes@, base, i as int).0;
            let ghost more = tree(
                g,
                *limits,
                levels,
                nodes@[i as int] as int,
                false,
                held.len() as int,
            );
            assert(held.len() == base + covers.len()) by {
                assert(forest_of(held).len() == held.len());
            }
            match self.node(g, limits, nodes[i], false, cancel) {
                Err(e) => {
                    proof {
                        if e != Error::Cancelled {
                            lemma_broken_grove(
                                g,
                                *limits,
                                t,
                                nodes@,
                                start,
                                i + 1,
                                nodes@.len() as int,
                            );
                        }
                    }
                    return Err(e);
                },
                Ok(None) => {
                    assert(forest_of(self.nodes@) =~= forest_of(before) + covers);
                },
                Ok(Some(at)) => {
                    roots.push(at);
                    assert(roots@.map_values(|c: usize| c as int) =~= known.map_values(
                        |c: usize| c as int,
                    ).push(at as int));
                    assert(forest_of(self.nodes@) =~= forest_of(before) + (covers + more));
                    proof {
                        lemma_joined(*limits, covers, more);
                    }
                },
            }
            i += 1;
        }
        Ok(roots)
    }
}

/// What is counted with the trees of the first `n` of some nodes, or the first limit that they
/// break.
pub open spec fn counted_grove<G: Geometry>(
    g: &G,
    limits: ForestLimits,
    t: Terrain,
    nodes: Seq<usize>,
    c: Counts,
    n: int,
) -> Result<Counts, Error>
    decreases n,
{
    if n <= 0 {
        Ok(c)
    } else {
        match counted_grove(g, limits, t, nodes, c, n - 1) {
            Err(e) => Err(e),
            Ok(d) => counted(g, limits, t, nodes[n - 1] as int, false, d),
        }
    }
}

proof fn lemma_broken_grove<G: Geometry>(
    g: &G,
    limits: ForestLimits,
    t: Terrain,
    nodes: Seq<usize>,
    c: Counts,
    i: int,
    n: int,
)
    requires
        i <= n,
        counted_grove(g, limits, t, nodes, c, i) is Err,
    ensures
        counted_grove(g, limits, t, nodes, c, n) == counted_grove(g, limits, t, nodes, c, i),
    decreases n - i,
{
    if i < n {
        lemma_broken_grove(g, limits, t, nodes, c, i, n - 1);
    }
}

/// What the planner may still read of a query's budget.
pub fn remaining_limits(o: JointQueryOptions, trace: Trace) -> (r: (usize, u64))
    requires
        trace.wf(),
    ensures
        r.0 == (if o.max_requests < MAX_READS - trace.reads() {
            o.max_requests as int
        } else {
            MAX_READS - trace.reads()
        }),
        r.1 == (if o.max_total_read_bytes < MAX_QUERY_BYTES - trace.index_bytes - trace.raw_bytes {
            o.max_total_read_bytes as int
        } else {
            MAX_QUERY_BYTES - trace.index_bytes - trace.raw_bytes
        }),
{
    let reads: usize = MAX_READS - (trace.index_reads + trace.raw_reads);
    let bytes: u64 = MAX_QUERY_BYTES - trace.index_bytes - trace.raw_bytes;
    (
        if o.max_requests < reads {
            o.max_requests
        } else {
            reads
        },
        if o.max_total_read_bytes < bytes {
            o.max_total_read_bytes
        } else {
            bytes
        },
    )
}

/// Where the summary of a record lies in its file.
pub fn summary_span(h: &Header, record: usize) -> (r: (u64, u64))
    requires
        h.valid(),
        h.kind@ == SUMMARIES@,
        record < h.record_count(),
    ensures
        r.0 == HEADER + record * h.summary_bytes(),
        r.1 == h.summary_bytes(),
        r.0 + r.1 <= h.length(),
{
    let size: usize = h.summary_size();
    proof {
        h.lemma_shape();
        let n = h.record_count();
        let s = h.summary_bytes();
        let i = record as int;
        assert((i + 1) * s <= n * s) by (nonlinear_arith)
            requires
                i + 1 <= n,
                s >= 0,
        ;
        assert((i + 1) * s == i * s + s) by (nonlinear_arith);
        assert(i * s >= 0) by (nonlinear_arith)
            requires
                i >= 0,
                s >= 0,
        ;
    }
    (HEADER as u64 + record as u64 * size as u64, size as u64)
}

/// Where the raw page of a group of a tile lies in its file.
pub fn raw_span(h: &Header, tile: usize, group: usize) -> (r: (u64, u64))
    requires
        h.valid(),
        h.kind@ == RAW@,
        h.kind@ != SUMMARIES@,
        tile < h.tile_count(),
        group < h.group_count(),
    ensures
        r.0 == HEADER + (tile * h.group_count() + group) * h.raw_bytes(),
        r.1 == h.raw_bytes(),
        r.0 + r.1 <= h.length(),
{
    let groups: usize = h.groups();
    let size: usize = h.raw_size();
    proof {
        h.lemma_shape();
        let t = tile as int;
        let n = h.tile_count();
        let g = h.group_count();
        let k = group as int;
        let s = h.raw_bytes();
        assert((t + 1) * g <= n * g) by (nonlinear_arith)
            requires
                t + 1 <= n,
                g >= 0,
        ;
        assert((t + 1) * g == t * g + g) by (nonlinear_arith);
        assert(t * g + k + 1 <= n * g);
        assert(t * g >= 0) by (nonlinear_arith)
            requires
                t >= 0,
                g >= 0,
        ;
        let page = t * g + k;
        let pages = n * g;
        assert((page + 1) * s <= pages * s) by (nonlinear_arith)
            requires
                page + 1 <= pages,
                s >= 0,
        ;
        assert((page + 1) * s == page * s + s) by (nonlinear_arith);
        assert(page <= page * s) by (nonlinear_arith)
            requires
                page >= 0,
                s >= 1,
        ;
    }
    let page: u64 = tile as u64 * groups as u64 + group as u64;
    (HEADER as u64 + page * size as u64, size as u64)
}

/// The bytes that a node of the forest asks for: the page of its summary where it lies inside,
/// and, where its cells are read, the raw page of each group.
pub open spec fn reads_of(n: ForestNode, index: Header, raw: Header, groups: Seq<usize>) -> Seq<
    (bool, int, int),
> {
    let summary = if n.certified {
        seq![(false, HEADER + n.record * index.summary_bytes(), index.summary_bytes())]
    } else {
        Seq::empty()
    };
    summary + if n.raw_cells is Some {
        groups.map_values(
            |g: usize|
                (
                    true,
                    HEADER + (n.record * raw.group_count() + g) * raw.raw_bytes(),
                    raw.raw_bytes(),
                ),
        )
    } else {
        Seq::empty()
    }
}

pub open spec fn span_view(r: PlanRange) -> (bool, int, int) {
    (r.raw, r.offset as int, r.len as int)
}

/// The byte spans of a node's choices, of the index and of the raw file.
pub fn node_reads(n: &ForestNode, index: &Header, raw: &Header, groups: &Vec<usize>) -> (r: Vec<
    PlanRange,
>)
    requires
        index.valid(),
        index.kind@ == SUMMARIES@,
        raw.valid(),
        raw.kind@ == RAW@,
        raw.kind@ != SUMMARIES@,
        n.certified ==> n.record < index.record_count(),
        n.raw_cells is Some ==> n.record < raw.tile_count(),
        forall|i: int| 0 <= i < groups@.len() ==> #[trigger] groups@[i] < raw.group_count(),
    ensures
        r@.map_values(|s: PlanRange| span_view(s)) == reads_of(*n, *index, *raw, groups@),
        forall|i: int|
            0 <= i < r@.len() ==> (#[trigger] r@[i]).offset + r@[i].len <= if r@[i].raw {
                raw.length()
            } else {
                index.length()
            },
{
    let mut out: Vec<PlanRange> = Vec::new();
    if n.certified {
        let (offset, len) = summary_span(index, n.record);
        out.push(PlanRange { raw: false, offset, len });
    }
    let ghost start = out@;
    let ghost want = reads_of(*n, *index, *raw, groups@);
    if n.raw_cells.is_none() {
        assert(out@.map_values(|s: PlanRange| span_view(s)) =~= want);
        return out;
    }
    let mut i: usize = 0;
    while i < groups.len()
        invariant
            i <= groups@.len(),
            raw.valid(),
            raw.kind@ == RAW@,
            raw.kind@ != SUMMARIES@,
            n.record < raw.tile_count(),
            forall|i: int| 0 <= i < groups@.len() ==> #[trigger] groups@[i] < raw.group_count(),
            out@.len() == start.len() + i,
            out@.take(start.len() as int) == start,
            forall|k: int|
                0 <= k < i ==> span_view(#[trigger] out@[start.len() + k]) == (
                    true,
                    HEADER + (n.record * raw.group_count() + groups@[k]) * raw.raw_bytes(),
                    raw.raw_bytes(),
                ),
            forall|k: int|
                0 <= k < out@.len() ==> (#[trigger] out@[k]).offset + out@[k].len <= if out@[k].raw {
                    raw.length()
                } else {
                    index.length()
                },
        decreases groups@.len() - i,
    {
        let (offset, len) = raw_span(raw, n.record, groups[i]);
        let ghost before = out@;
        out.push(PlanRange { raw: true, offset, len });
        assert(out@.take(start.len() as int) =~= before.take(start.len() as int));
        i += 1;
    }
    proof {
        let got = out@.map_values(|s: PlanRange| span_view(s));
        assert(got.len() == want.len());
        assert forall|k: int| 0 <= k < got.len() implies got[k] == want[k] by {
            if k < start.len() {
                assert(out@[k] == out@.take(start.len() as int)[k]);
            } else {
                let g = k - start.len();
                assert(out@[start.len() + g] == out@[k]);
            }
        }
        assert(got =~= want);
    }
    out
}

} // verus!
