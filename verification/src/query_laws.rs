//! What the choices of a query promise: which reductions and sources answer it, how planned reads
//! meet its demands, and what the nodes of a cover forest stand for.
use vstd::prelude::*;

use crate::error::Error;
use crate::hierarchy::children_of;
use crate::layout::level_at;
use crate::persistent::{Header, HEADER};
use crate::persistent_joint::{
    below, cache_holds, covers, demand_of, first_cover, reads_of, tree, Cover, Execution,
    ForestLimits, ForestNode, Geometry, PlanRange,
};
use crate::persistent_page::{state_refusal, validated, BandState};
use crate::persistent_query::{
    boundary_of, buffers_of, corners, options_refusal, polygon_corners, schedule_limit, Buffers,
    Needs, QueryOptions,
};
use crate::persistent_walk::{touched, Relation};
use crate::profile_request::{role_of, Role};
use crate::profile_text::{selector_text, text_digest, view_text};
use crate::range_schedule::word;
use crate::request::{Operation, Request};
use crate::routes::{
    additive, file_route, reduction_of, serves_cumulatively, source_route, Backend, FileRoute, Reduction,
    SourceRoute,
};
use crate::serving_profile::{profile_refusal, RequestFacts, ServingProfile};
use crate::shared_rows::rank;
use crate::skv_header::finite_bits;

verus! {

/// Row blocks reduce a query just where they are there, hold its statistics and are neither
/// switched off nor passed over; everything else is reduced from its cells. Only row blocks that
/// were asked for and cannot be used are refused.
pub proof fn row_blocks_reduce_only_what_they_hold(
    backend: Backend,
    use_index: Option<bool>,
    indexed: bool,
    eligible: bool,
)
    ensures
        !eligible || !indexed || use_index == Some(false) || backend == Backend::Direct
            ==> reduction_of(backend, use_index, indexed, eligible) != Ok::<Reduction, Error>(
            Reduction::RowBlocks,
        ),
        eligible && indexed && use_index != Some(false) && backend != Backend::Direct
            ==> reduction_of(backend, use_index, indexed, eligible) == Ok::<Reduction, Error>(
            Reduction::RowBlocks,
        ),
        reduction_of(backend, use_index, indexed, eligible) is Err <==> backend
            == Backend::RowBlocks && (!indexed || use_index == Some(false)),
        backend != Backend::RowBlocks && !eligible ==> reduction_of(
            backend,
            use_index,
            indexed,
            eligible,
        ) == Ok::<Reduction, Error>(Reduction::Raw),
{
}

/// A cumulative field answers only statistics that add up: a statistic of another name, a plan, or
/// statistics that were not asked for by name are never answered by it.
pub proof fn a_cumulative_field_answers_only_sums(statistics: Option<Vec<String>>, plan: bool, i: int)
    requires
        serves_cumulatively(statistics, plan),
    ensures
        statistics is Some,
        !plan,
        0 <= i < statistics->0@.len() ==> (statistics->0@[i]@ == "sum"@ || statistics->0@[i]@
            == "support"@ || statistics->0@[i]@ == "mean"@),
{
    if 0 <= i < statistics->0@.len() {
        let name = statistics->0@[i];
        assert(additive(name@));
    }
}

/// A query on a registered source goes to the retained index that it names, else to the index that
/// it names, else to the source; exact extraction takes neither, and no options of an index.
pub proof fn a_source_query_goes_where_it_says(r: Request, exact: bool)
    ensures
        source_route(r, exact) matches Ok(route) ==> {
            &&& route == SourceRoute::Exactextract <==> exact
            &&& route == SourceRoute::Retained <==> !exact && r.text_of("index_handle"@) is Some
            &&& route == SourceRoute::Indexed <==> !exact && r.text_of("index_handle"@) is None
                && r.text_of("index"@) is Some
            &&& route == SourceRoute::Direct <==> !exact && r.text_of("index_handle"@) is None
                && r.text_of("index"@) is None
            &&& exact ==> !r.has("joint_planner"@) && !r.has("expected_build_id"@) && !r.has(
                "read_memory_bytes"@,
            ) && !r.has("forbidden_raw_tiles"@) && !r.has("use_index"@) && !r.has("mode"@)
                && !r.has("strategy"@)
            &&& route == SourceRoute::Retained ==> !r.has("index"@)
        },
{
}

/// A query on a file is answered by an index only where it names one, and reads raw leaves alone
/// just where it asks for that by name.
pub proof fn a_file_query_goes_where_it_says(r: Request, op: Operation)
    ensures
        file_route(r, op) matches Ok(route) ==> {
            &&& route is Indexed <==> r.has("index"@)
            &&& route is Registered <==> !r.has("index"@) && op == Operation::MeasureRegisteredFile
            &&& route matches FileRoute::Indexed { force_direct, hierarchy } ==> {
                &&& op == Operation::MeasureFile
                &&& force_direct <==> r.text_of("backend"@) == Some("direct"@)
                &&& hierarchy == Some(true) ==> r.text_of("backend"@) == Some(
                    "persistent_hierarchy"@,
                )
                &&& hierarchy == Some(false) ==> r.text_of("backend"@) == Some("persistent_flat"@)
                &&& r.text_of("backend"@) is None ==> hierarchy is None
            }
            &&& route is Path ==> !r.has("source"@)
            &&& route is Registered ==> !r.has("path"@)
        },
{
    reveal_strlit("auto");
    reveal_strlit("direct");
    reveal_strlit("persistent_flat");
    reveal_strlit("persistent_hierarchy");
    assert("auto"@.len() == 4 && "direct"@.len() == 6);
    assert("persistent_flat"@.len() == 15 && "persistent_hierarchy"@.len() == 20);
}

/// The accelerated source serves a request just where the profile enables it, the declared access
/// is a known class of the rule, the bands are those of the rule, and every count of the request
/// lies in its range; everything else is served directly.
pub proof fn only_a_request_within_the_rule_is_accelerated(
    profile: ServingProfile,
    facts: RequestFacts,
    access: Option<&str>,
)
    ensures
        ({
            let rule = profile.accelerated_when;
            let role = role_of(profile, facts, access);
            &&& access is None ==> role == Role::Direct
            &&& !rule.enabled ==> role == Role::Direct
            &&& access matches Some(a) ==> (a@ == "unknown"@ ==> role == Role::Direct)
            &&& role == Role::Accelerated ==> {
                &&& rule.enabled
                &&& access is Some && exists|i: int|
                    0 <= i < rule.access_classes@.len() && (#[trigger] rule.access_classes@[i])@
                        == access->0@
                &&& facts.selected_bands@.len() == rule.bands@.len()
                &&& forall|i: int|
                    0 <= i < facts.selected_bands@.len() ==> rule.bands@.contains(
                        #[trigger] facts.selected_bands@[i],
                    )
                &&& rule.polygons@[0] <= facts.polygon_count <= rule.polygons@[1]
                &&& rule.windows@[0] <= facts.window_count <= rule.windows@[1]
                &&& rule.selected_cells@[0] <= facts.selected_cells <= rule.selected_cells@[1]
                &&& rule.envelope_cells@[0] <= facts.envelope_cells <= rule.envelope_cells@[1]
                &&& facts.window_envelope matches Some(e) ==> rule.envelope_width@[0] <= e@[2]
                    <= rule.envelope_width@[1] && rule.envelope_height@[0] <= e@[3]
                    <= rule.envelope_height@[1]
            }
        }),
{
}

proof fn lemma_first_cover(
    ranges: Seq<PlanRange>,
    raw: bool,
    offset: int,
    end: int,
    n: int,
)
    requires
        0 <= n <= ranges.len(),
    ensures
        match first_cover(ranges, raw, offset, end, n) {
            Some(i) => 0 <= i < n && covers(ranges[i], raw, offset, end) && forall|k: int|
                0 <= k < i ==> !covers(#[trigger] ranges[k], raw, offset, end),
            None => forall|k: int| 0 <= k < n ==> !covers(#[trigger] ranges[k], raw, offset, end),
        },
    decreases n,
{
    if n > 0 {
        lemma_first_cover(ranges, raw, offset, end, n - 1);
    }
}

/// A demand is met from bytes of its own file that hold it: from what is cached, or from the first
/// range of the plan that covers it, which is read for the first time then. What no range covers is
/// refused, and so is a range that would be read again.
pub proof fn a_demand_is_met_by_bytes_that_hold_it(
    e: Execution,
    raw: bool,
    offset: int,
    length: int,
)
    requires
        e.wf(),
        0 <= offset,
        0 < length,
        e.ranges@.len() <= usize::MAX,
    ensures
        ({
            let end = offset + length;
            let cache = if raw {
                e.raw_cache
            } else {
                e.index_cache
            };
            match demand_of(e, raw, offset, length) {
                Ok(d) => match d.range {
                    None => cache.offset <= offset && end <= cache.offset + cache.len
                        && cache.offset + d.at == offset,
                    Some(i) => {
                        let r = e.ranges@[i as int];
                        &&& i < e.ranges@.len()
                        &&& r.raw == raw
                        &&& r.offset <= offset
                        &&& end <= r.offset + r.len
                        &&& r.offset + d.at == offset
                        &&& !e.loaded@[i as int]
                        &&& !cache_holds(cache, offset, end)
                    },
                },
                Err(_) => end > u64::MAX || forall|k: int|
                    0 <= k < e.ranges@.len() && !(#[trigger] e.loaded@[k]) && (forall|j: int|
                        0 <= j < k ==> !covers(#[trigger] e.ranges@[j], raw, offset, end))
                        ==> !covers(e.ranges@[k], raw, offset, end),
            }
        }),
{
    let end = offset + length;
    lemma_first_cover(e.ranges@, raw, offset, end, e.ranges@.len() as int);
}

/// The buffers of a query keep to its memory: what they hold in all is what is held apart from the
/// reader and what the reader holds, and is never more than the query may read into.
pub proof fn buffers_keep_to_the_memory(
    h: Header,
    q: QueryOptions,
    n: Needs,
    reader: Option<Result<usize, Error>>,
    b: Buffers,
)
    requires
        buffers_of(h, q, n, reader) == Ok::<Buffers, Error>(b),
        h.shaped(),
        h.group_count() >= 1,
        n.read_bands >= 1,
    ensures
        b.total <= q.read_memory_bytes,
        reader matches Some(Ok(held)) ==> b.total == b.base + held,
        reader is None ==> b.total == b.base + b.max_raw_groups * h.raw_bytes(),
        b.base >= n.accumulator * n.selected_bands + n.transient + n.joint + n.vertices * 8192,
        1 <= b.max_raw_groups <= h.group_count(),
        !q.coalesce_raw || q.joint_planner is Some ==> b.max_raw_groups == 1,
{
    h.lemma_shape();
    let e = h.tile_edge as int;
    let w = n.read_bands * 9 + 24;
    assert(e * e * w >= 0) by (nonlinear_arith)
        requires
            e >= 0,
            w >= 0,
    ;
    let limit = schedule_limit(h);
    let unit = word();
    let parts = 6 * limit + 3 * (limit + 1);
    assert(unit * parts >= 0) by (nonlinear_arith)
        requires
            unit >= 0,
            parts >= 0,
    ;
}

/// What a node of a cover forest stands for. A summary is offered only of a node that lies inside,
/// at the price of one summary for each band. Raw cells are offered only of a tile that the
/// boundary crosses and that has covered cells, at the price of those cells for each band. Any
/// other node gives way to those below it.
pub open spec fn stands_for_its_place<G: Geometry>(
    g: &G,
    limits: ForestLimits,
    levels: Seq<(int, int, int)>,
    inherited: bool,
    n: Cover,
) -> bool {
    &&& inherited ==> n.certified
    &&& n.certified ==> n.raw_cells is None && n.reduction_ns == Some(
        limits.options.summary_reduction_ns * limits.selected_bands,
    )
    &&& n.raw_cells matches Some(cells) ==> {
        &&& !n.certified
        &&& level_at(levels, n.record) <= 0
        &&& g.relation(n.record) == Relation::Boundary
        &&& cells == g.covered(n.record)
        &&& cells != 0
        &&& n.children.len() == 0
        &&& n.reduction_ns == Some(
            (limits.options.raw_cell_reduction_ns * cells) * limits.selected_bands,
        )
    }
    &&& !n.certified && n.raw_cells is None ==> {
        &&& level_at(levels, n.record) > 0
        &&& g.relation(n.record) == Relation::Boundary
        &&& n.children.len() > 0
        &&& n.reduction_ns is None
    }
}

pub open spec fn all_stand<G: Geometry>(
    g: &G,
    limits: ForestLimits,
    levels: Seq<(int, int, int)>,
    inherited: bool,
    nodes: Seq<Cover>,
) -> bool {
    forall|k: int|
        0 <= k < nodes.len() ==> stands_for_its_place(
            g,
            limits,
            levels,
            inherited,
            #[trigger] nodes[k],
        )
}

/// Every node of a cover forest stands for its place; where the geometry does not touch a node there
/// is none, and below a node that lies inside every node may be taken by its summary.
pub proof fn a_forest_offers_only_what_answers<G: Geometry>(
    g: &G,
    limits: ForestLimits,
    levels: Seq<(int, int, int)>,
    node: int,
    inherited: bool,
    base: int,
)
    ensures
        all_stand(g, limits, levels, inherited, tree(g, limits, levels, node, inherited, base)),
        !inherited && g.relation(node) == Relation::Outside ==> tree(
            g,
            limits,
            levels,
            node,
            inherited,
            base,
        ).len() == 0,
        tree(g, limits, levels, node, inherited, base).len() > 0 ==> ({
            let root = tree(g, limits, levels, node, inherited, base)[0];
            root.record == node && root.certified == (inherited || g.relation(node)
                == Relation::Inside)
        }),
        inherited || g.relation(node) == Relation::Inside ==> tree(
            g,
            limits,
            levels,
            node,
            inherited,
            base,
        ).len() > 0,
    decreases level_at(levels, node), 1int, 0int,
{
    let inside = inherited || g.relation(node) == Relation::Inside;
    let all = children_of(levels, node).len() as int;
    if !(!inherited && g.relation(node) == Relation::Outside) && level_at(levels, node) > 0 {
        lemma_below_stands(g, limits, levels, node, inside, base + 1, all);
        let (nodes, roots) = below(g, limits, levels, node, inside, base + 1, all);
        let found = tree(g, limits, levels, node, inherited, base);
        assert forall|k: int| 0 <= k < found.len() implies stands_for_its_place(
            g,
            limits,
            levels,
            inherited,
            #[trigger] found[k],
        ) by {
            if k > 0 {
                assert(found[k] == nodes[k - 1]);
                assert(stands_for_its_place(g, limits, levels, inside, nodes[k - 1]));
            }
        }
    }
}

proof fn lemma_below_stands<G: Geometry>(
    g: &G,
    limits: ForestLimits,
    levels: Seq<(int, int, int)>,
    node: int,
    inside: bool,
    base: int,
    i: int,
)
    ensures
        all_stand(g, limits, levels, inside, below(g, limits, levels, node, inside, base, i).0),
    decreases level_at(levels, node), 0int, i,
{
    if i > 0 {
        lemma_below_stands(g, limits, levels, node, inside, base, i - 1);
        let nodes = below(g, limits, levels, node, inside, base, i - 1).0;
        let child = children_of(levels, node)[i - 1];
        if 0 <= level_at(levels, child) < level_at(levels, node) {
            a_forest_offers_only_what_answers(
                g,
                limits,
                levels,
                child,
                inside,
                base + nodes.len(),
            );
            let more = tree(g, limits, levels, child, inside, base + nodes.len());
            let joined = nodes + more;
            assert forall|k: int| 0 <= k < joined.len() implies stands_for_its_place(
                g,
                limits,
                levels,
                inside,
                #[trigger] joined[k],
            ) by {
                if k < nodes.len() {
                    assert(joined[k] == nodes[k]);
                } else {
                    assert(joined[k] == more[k - nodes.len()]);
                }
            }
        }
    }
}

/// What a node of the forest asks for: the page of its own summary where it lies inside, and the
/// raw pages of its own tile, one for each group, where its cells are read.
pub proof fn a_node_reads_its_own_pages(
    n: ForestNode,
    index: Header,
    raw: Header,
    groups: Seq<usize>,
    i: int,
)
    requires
        0 <= i < reads_of(n, index, raw, groups).len(),
    ensures
        ({
            let reads = reads_of(n, index, raw, groups);
            let read = reads[i];
            &&& !read.0 ==> n.certified && read.1 == 65536 + n.record * index.summary_bytes()
                && read.2 == index.summary_bytes()
            &&& read.0 ==> n.raw_cells is Some && read.2 == raw.raw_bytes() && exists|k: int|
                0 <= k < groups.len() && read.1 == 65536 + (n.record * raw.group_count()
                    + #[trigger] groups[k]) * raw.raw_bytes()
            &&& reads.len() == (if n.certified {
                1int
            } else {
                0
            }) + (if n.raw_cells is Some {
                groups.len() as int
            } else {
                0
            })
        }),
{
    let reads = reads_of(n, index, raw, groups);
    if reads[i].0 {
        let at = i - (if n.certified {
            1int
        } else {
            0
        });
        assert(reads[i].1 == HEADER + (n.record * raw.group_count() + groups[at])
            * raw.raw_bytes());
    }
}

/// The corners of rings, added up.
pub open spec fn corner_sum(rings: Seq<usize>, n: int) -> int
    decreases n,
{
    if n <= 0 {
        0
    } else {
        corner_sum(rings, n - 1) + rings[n - 1]
    }
}

proof fn lemma_corner_sum(rings: Seq<usize>, n: int, count: int)
    requires
        0 <= n <= rings.len(),
        0 <= count <= usize::MAX,
    ensures
        0 <= corner_sum(rings, n),
        corners(rings, n, count) == if count + corner_sum(rings, n) > usize::MAX {
            usize::MAX as int
        } else {
            count + corner_sum(rings, n)
        },
    decreases n,
{
    if n > 0 {
        lemma_corner_sum(rings, n - 1, count);
    }
}

/// A polygon is counted with the corners of all its rings, and refused where they are more than the
/// limit or it has more rings than one outer ring and its holes may be.
pub proof fn every_corner_is_counted(rings: Seq<usize>, limit: int)
    requires
        0 <= limit < usize::MAX,
    ensures
        polygon_corners(rings, 0, limit) matches Ok(n) ==> n == corner_sum(
            rings,
            rings.len() as int,
        ) && n <= limit,
        polygon_corners(rings, 0, limit) is Ok <==> rings.len() <= 129 && corner_sum(
            rings,
            rings.len() as int,
        ) <= limit,
{
    lemma_corner_sum(rings, rings.len() as int, 0);
}

/// The group of every selected band is read.
pub proof fn a_selected_band_is_in_a_read_group(bands: Seq<usize>, band_group: int, i: int)
    requires
        0 <= i < bands.len(),
        band_group > 0,
    ensures
        touched(bands, band_group, bands[i] as int / band_group),
{
}

/// An accepted profile is pinned: both of its sources carry the digests and lengths that the owner
/// attested, both read as the attested interpretation, both stand on one grid, all of its cells are
/// attested, and its rule keeps to the view.
pub proof fn an_accepted_profile_is_pinned(
    profile: ServingProfile,
    policy: Seq<char>,
    direct_affine: Result<(), Error>,
    accelerated_affine: Result<(), Error>,
)
    requires
        profile_refusal(profile, policy, direct_affine, accelerated_affine) is None,
    ensures
        ({
            let a = profile.attestation;
            let d = profile.direct;
            let f = profile.accelerated;
            let rule = profile.accelerated_when;
            &&& profile.numerical_policy@ == policy
            &&& d.spec.identity is Some && f.spec.identity is Some
            &&& d.spec.identity->0.sha256@ == a.direct.sha256@
            &&& f.spec.identity->0.sha256@ == a.accelerated.sha256@
            &&& d.spec.identity->0.byte_length == a.direct.byte_length > 0
            &&& f.spec.identity->0.byte_length == a.accelerated.byte_length > 0
            &&& text_digest(view_text(d.expected, false)) == a.interpretation_sha256@
            &&& text_digest(view_text(f.expected, false)) == a.interpretation_sha256@
            &&& text_digest(view_text(d.expected, true)) == a.direct.expected_view_sha256@
            &&& text_digest(view_text(f.expected, true)) == a.accelerated.expected_view_sha256@
            &&& text_digest(selector_text(d.spec)) == a.direct.selector_sha256@
            &&& text_digest(selector_text(f.spec)) == a.accelerated.selector_sha256@
            &&& d.expected.grid.width == f.expected.grid.width
            &&& d.expected.grid.height == f.expected.grid.height
            &&& a.cells_per_band == d.expected.grid.width * d.expected.grid.height
            &&& a.checks@.len() == 3
            &&& rule.polygons@[0] <= rule.polygons@[1] <= 256
            &&& rule.windows@[0] <= rule.windows@[1] <= 4096
            &&& rule.selected_cells@[0] <= rule.selected_cells@[1] <= 268435456
            &&& rule.envelope_cells@[0] <= rule.envelope_cells@[1] <= a.cells_per_band
            &&& rule.envelope_width@[0] <= rule.envelope_width@[1] <= d.expected.grid.width
            &&& rule.envelope_height@[0] <= rule.envelope_height@[1] <= d.expected.grid.height
            &&& 0 < rule.bands@.len() <= d.expected.raw_metadata.bands@.len()
            &&& rule.bands@.no_duplicates()
        }),
{
}

/// A stored state is accepted of so many cells just where it counts no more, its extremes are finite
/// and in order, its mean lies between them, and an empty one is all zero; the extremes of no cells
/// are infinite.
pub proof fn a_stored_state_fits_its_cells(s: BandState, cells: int, mean_fits: bool)
    ensures
        s.count > 0 ==> (state_refusal(s, cells, mean_fits) is None <==> s.count <= cells
            && finite_bits(s.min) && finite_bits(s.max) && rank(s.min) <= rank(s.max) && mean_fits),
        s.count > cells ==> state_refusal(s, cells, mean_fits) is Some,
        s.count == 0 && state_refusal(s, cells, mean_fits) is None ==> (s.high == 0 || s.high
            == 0x8000_0000_0000_0000) && (s.low == 0 || s.low == 0x8000_0000_0000_0000),
        s.count > 0 ==> validated(s) == s,
        s.count == 0 ==> validated(s).min == 0x7ff0_0000_0000_0000 && validated(s).max
            == 0xfff0_0000_0000_0000 && validated(s).count == 0,
{
}

/// A boundary tile is read just where some of its cells are touched and its raw page is not
/// forbidden; a forbidden one that is touched is refused, never passed over.
pub proof fn a_touched_tile_is_read_or_refused(q: QueryOptions, tile: usize, cells: int)
    ensures
        boundary_of(q, tile, cells) == Ok::<bool, Error>(false) <==> cells == 0,
        boundary_of(q, tile, cells) == Ok::<bool, Error>(true) <==> cells != 0
            && !q.forbidden_raw_tiles@.contains(tile),
        boundary_of(q, tile, cells) is Err <==> cells != 0 && q.forbidden_raw_tiles@.contains(tile),
{
}

/// The options of a query are taken just where its memory, the number of its forbidden tiles and its
/// page of summaries are ones that may be asked for.
pub proof fn options_are_taken_within_their_bounds(q: QueryOptions)
    ensures
        options_refusal(q) is None <==> 1048576 <= q.read_memory_bytes <= 134217728
            && q.forbidden_raw_tiles@.len() <= 65536 && (q.summary_page_bytes matches Some(n) ==> n
            == 0 || n == 4096 || n == 16384 || n == 65536),
{
}

} // verus!
