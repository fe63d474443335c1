use skarve::cancel::Fixed;
use skarve::error::Error;
use skarve::layout::SummaryLayout;
use skarve::model::Grid;
use skarve::persistent::{BoundarySource, Header};
use skarve::persistent_joint::{
    raw_span, remaining_limits, summary_span, Execution, Forest, ForestLimits, JointQueryOptions,
    PlanRange, Surveyed,
};
use skarve::persistent_query::{
    add_boundary_work, check_index, check_joint, check_options, check_predicate_work, check_read,
    checks_root, choose_traversal, plan_buffers, read_pieces, vertex_preflight, Needs, Outline,
    QueryOptions, Trace, Traversal,
};
use skarve::persistent_walk::{
    group_runs, touched_groups, FlatTiles, Relation, Schedule, Step, SummaryCache, Walk,
};

const NO: Fixed = Fixed { requested: false };

fn header(kind: &str, algorithm: &str) -> Header {
    Header {
        version: 1,
        kind: kind.to_owned(),
        numerical_contract: "native_grid_planar_v1".to_owned(),
        algorithm_version: algorithm.to_owned(),
        grid: Grid {
            width: 17,
            height: 19,
            transform_bits: [0f64, 1., 0., 19., 0., -1.].map(f64::to_bits),
            crs: "LOCAL".to_owned(),
        },
        source_id: "fixture".to_owned(),
        source_metadata: "{}".to_owned(),
        build_id: "a".repeat(64),
        units: vec![None, None],
        tile_edge: 16,
        band_group: 1,
        capabilities: ["sum", "support", "count", "min", "max"].map(str::to_owned).to_vec(),
        byte_order: "little".to_owned(),
        scalar: "normalized_f64_u8_valid".to_owned(),
        boundary_source: BoundarySource::Normalized,
        source_identity: None,
    }
}

fn joint() -> JointQueryOptions {
    JointQueryOptions {
        max_planner_bytes: 65536,
        max_requests: 10,
        max_total_read_bytes: 1 << 20,
        max_range_bytes: 1 << 20,
        max_summary_gap_bytes: 0,
        summary_reduction_ns: 3,
        raw_cell_reduction_ns: 5,
    }
}

fn query() -> QueryOptions {
    QueryOptions {
        joint_planner: None,
        index_path: "i".to_owned(),
        raw_path: "r".to_owned(),
        source_path: None,
        expected_build_id: None,
        read_memory_bytes: 8 << 20,
        summary_page_bytes: None,
        coalesce_raw: true,
        order_summaries: true,
        forbidden_raw_tiles: Vec::new(),
        force_direct: false,
        hierarchy: None,
    }
}

fn layout() -> SummaryLayout {
    SummaryLayout::new(17, 19, 16, false).unwrap()
}

#[test]
fn a_walk_asks_for_every_part_of_the_grid_once() {
    let mut walk = Walk::from_root(layout(), 17, 19, false);
    assert_eq!(walk.next(), Some(4));
    assert_eq!(walk.decide(4, Relation::Boundary), Step::Descend);
    let mut visited = Vec::new();
    while let Some(node) = walk.next() {
        visited.push(node);
        let step = walk.decide(node, if node == 0 { Relation::Inside } else { Relation::Boundary });
        assert_eq!(step, if node == 0 { Step::Summary } else { Step::Boundary });
    }
    assert_eq!(visited, vec![0, 1, 2, 3]);
    let mut whole = Walk::from_root(layout(), 17, 19, false);
    let root = whole.next().unwrap();
    assert_eq!(whole.decide(root, Relation::Inside), Step::Summary);
    assert_eq!(whole.next(), None);
    let mut outside = Walk::from_root(layout(), 17, 19, false);
    let root = outside.next().unwrap();
    assert_eq!(outside.decide(root, Relation::Outside), Step::Skip);
    assert_eq!(outside.next(), None);
    let mut flat = FlatTiles::new(0, 1, 2, 2, 2);
    assert_eq!((flat.next(), flat.next(), flat.next()), (Some(2), Some(3), None));
}

#[test]
fn summaries_are_scheduled_in_file_order_and_cached_by_page() {
    let mut schedule = Schedule::new(3);
    for record in [9, 2, 5] {
        assert_eq!(schedule.add(record), Ok(()));
    }
    assert_eq!(schedule.add(1), Err(Error::ScheduleCapacity));
    assert_eq!(schedule.in_file_order(), vec![2, 5, 9]);
    let mut cache = SummaryCache::new(vec![(9, 1), (2, 4)]);
    assert_eq!(cache.locate(2, 20, 8, true), Ok(Some((2, 4))));
    assert_eq!(cache.locate(5, 20, 8, true), Ok(None));
    assert_eq!(cache.hits, 1);
    assert_eq!(cache.locate(8, 20, 8, true), Err(Error::RangeAlignment));
    assert_eq!(cache.locate(9, 20, 8, true), Ok(Some((9, 1))));
    assert_eq!(cache.locate(3, 20, 8, true), Err(Error::MissingRange));
    assert_eq!(cache.locate(17, 20, 8, false), Ok(Some((16, 4))));
}

#[test]
fn raw_pages_of_neighbouring_groups_are_read_together() {
    assert_eq!(touched_groups(&vec![5, 0, 4, 9], 2, 5), vec![0, 2, 4]);
    assert_eq!(group_runs(&vec![0, 1, 2, 4, 5], 2), vec![(0, 2), (2, 1), (4, 2)]);
    assert_eq!(group_runs(&vec![0, 1, 2], 9), vec![(0, 3)]);
    assert_eq!(read_pieces(4194305), vec![(0, 4194304), (4194304, 1)]);
    assert_eq!(read_pieces(0), vec![]);
    assert_eq!(check_read(10, 5, 15), Ok(()));
    assert_eq!(check_read(10, 6, 15), Err(Error::ReadBounds));
    assert_eq!(check_read(u64::MAX, 6, 15), Err(Error::ReadBounds));
}

#[test]
fn options_of_a_query_are_bounded() {
    assert_eq!(check_options(&query()), Ok(()));
    let small = QueryOptions { read_memory_bytes: (1 << 20) - 1, ..query() };
    assert_eq!(check_options(&small), Err(Error::ReadMemory));
    let many = QueryOptions { forbidden_raw_tiles: vec![0; 65537], ..query() };
    assert_eq!(check_options(&many), Err(Error::ForbiddenTiles));
    let page = QueryOptions { summary_page_bytes: Some(100), ..query() };
    assert_eq!(check_options(&page), Err(Error::SummaryPageBytes));
    let h = header("summaries", "hierarchy_tiles_v1");
    assert_eq!(h.validate(), Ok(()));
    let length = h.file_length(true).unwrap();
    assert_eq!(check_index(&h, length, &None), Ok(()));
    assert_eq!(check_index(&h, length, &Some("a".repeat(64))), Ok(()));
    assert_eq!(check_index(&h, length, &Some("b".repeat(64))), Err(Error::BuildMismatch));
    assert_eq!(check_index(&h, length + 1, &None), Err(Error::TruncatedIndex));
}

#[test]
fn corners_are_counted_before_they_are_stored() {
    assert_eq!(vertex_preflight(&Outline::Polygon(vec![5, 4]), 100), Ok(9));
    assert_eq!(vertex_preflight(&Outline::MultiPolygon(vec![vec![5], vec![4, 4]]), 100), Ok(13));
    assert_eq!(vertex_preflight(&Outline::Polygon(vec![5, 4]), 8), Err(Error::VertexBudget));
    assert_eq!(
        vertex_preflight(&Outline::MultiPolygon(vec![Vec::new(); 129]), 100),
        Err(Error::ComponentCount)
    );
    assert_eq!(vertex_preflight(&Outline::Other, 100), Err(Error::PolygonType));
}

#[test]
fn a_query_walks_the_hierarchy_where_that_saves_reads() {
    let prepared = header("summaries", "hierarchy_tiles_v1");
    let flat = header("summaries", "flat_tiles_v1");
    let walk = |h: &Header, q: &QueryOptions, remote: bool, whole: bool| {
        choose_traversal(h, q, true, remote, whole)
    };
    assert_eq!(
        walk(&prepared, &query(), false, false),
        Ok(Traversal {
            eligible: true,
            hierarchical: true,
            summary_page_bytes: 0,
            order_summaries: true,
        })
    );
    let partial = walk(&prepared, &query(), true, false).unwrap();
    assert_eq!((partial.hierarchical, partial.summary_page_bytes), (false, 65536));
    assert!(walk(&prepared, &query(), true, true).unwrap().hierarchical);
    assert!(checks_root(&prepared, &query(), true, true));
    assert!(!checks_root(&prepared, &query(), true, false));
    assert!(!checks_root(&flat, &query(), true, true));
    let forced = QueryOptions { hierarchy: Some(true), ..query() };
    assert_eq!(walk(&flat, &forced, false, false), Err(Error::HierarchyIndex));
    let direct = QueryOptions { force_direct: true, ..query() };
    assert!(!walk(&prepared, &direct, false, false).unwrap().eligible);
    let planned = QueryOptions { joint_planner: Some(joint()), ..query() };
    assert_eq!(check_joint(&planned, BoundarySource::Normalized, true), Ok(()));
    assert_eq!(
        check_joint(&planned, BoundarySource::Original, true),
        Err(Error::JointOriginal)
    );
    assert_eq!(
        check_joint(&planned, BoundarySource::Normalized, false),
        Err(Error::JointStatistics)
    );
    let level = QueryOptions { hierarchy: Some(false), ..planned };
    assert_eq!(check_joint(&level, BoundarySource::Normalized, true), Err(Error::JointFlat));
}

#[test]
fn work_and_memory_of_a_query_are_bounded() {
    let h = header("summaries", "hierarchy_tiles_v1");
    assert_eq!(check_predicate_work(&h, true, (0, 0, 17, 19), 20_000_000), Ok(()));
    assert_eq!(
        check_predicate_work(&h, true, (0, 0, 17, 19), 20_000_001),
        Err(Error::PredicateWork)
    );
    assert_eq!(check_predicate_work(&h, false, (0, 0, 16, 16), 100_000_000), Ok(()));
    assert_eq!(add_boundary_work(10, 5, 4), Ok(30));
    assert_eq!(add_boundary_work(99_999_999, 1, 2), Err(Error::BoundaryWork));
    let needs = Needs {
        selected_bands: 2,
        read_bands: 2,
        vertices: 4,
        accumulator: 100,
        transient: 50,
        joint: 0,
        order_summaries: false,
        remote_raw: false,
    };
    let page = h.raw_size();
    let base = 256 * (2 * 9 + 24) + 2 * 65536 + 65536 + 4 * 8192 + 250;
    let buffers = plan_buffers(&h, &query(), needs, None).unwrap();
    assert_eq!(buffers.base, base);
    assert_eq!(buffers.max_raw_groups, 2);
    assert_eq!(buffers.total, base + 2 * page);
    let alone = QueryOptions { coalesce_raw: false, ..query() };
    assert_eq!(plan_buffers(&h, &alone, needs, None).unwrap().max_raw_groups, 1);
    assert_eq!(
        plan_buffers(&h, &query(), needs, Some(Ok(8 << 20))).err(),
        Some(Error::QueryMemory)
    );
    assert_eq!(
        plan_buffers(&h, &query(), needs, Some(Ok(usize::MAX))).err(),
        Some(Error::ReaderOverflow)
    );
}

#[test]
fn a_forest_holds_what_the_geometry_covers() {
    assert_eq!(joint().reserve(), Ok(65536 + (2 << 20) + 8388608));
    let wide = JointQueryOptions { max_range_bytes: 0, ..joint() };
    assert_eq!(wide.reserve(), Err(Error::JointRange));
    let little = JointQueryOptions { max_planner_bytes: 1, ..joint() };
    assert_eq!(little.reserve(), Err(Error::JointReservation));
    let gap = JointQueryOptions { max_summary_gap_bytes: u64::MAX, ..joint() };
    assert_eq!(gap.reserve(), Err(Error::JointGap));
    assert_eq!(
        Forest::new(layout(), 17, 19, false, 5, little).err(),
        Some(Error::JointForestMemory)
    );
    let survey = Surveyed {
        relations: vec![
            Relation::Inside,
            Relation::Boundary,
            Relation::Boundary,
            Relation::Outside,
            Relation::Boundary,
        ],
        cells: vec![256, 7, 0, 3, 0],
    };
    let limits = |forbidden: Vec<usize>| ForestLimits {
        vertices: 4,
        selected_bands: 2,
        groups: 2,
        raw_size: 100,
        options: joint(),
        forbidden,
    };
    let mut forest = Forest::new(layout(), 17, 19, false, 5, joint()).unwrap();
    let roots = forest.grow(&survey, &limits(Vec::new()), &vec![4], &NO).unwrap();
    assert_eq!(roots, vec![0]);
    let shown: Vec<_> = forest
        .nodes
        .iter()
        .map(|n| (n.record, n.certified, n.children.clone(), n.raw_cells))
        .collect();
    assert_eq!(
        shown,
        vec![
            (4, false, vec![1, 2], None),
            (0, true, vec![], None),
            (1, false, vec![], Some(7)),
        ]
    );
    // A summary of two bands costs three for each, and seven cells five for each band.
    let costs: Vec<_> = forest.nodes.iter().map(|n| n.reduction_ns).collect();
    assert_eq!(costs, vec![None, Some(6), Some(70)]);
    let mut barred = Forest::new(layout(), 17, 19, false, 5, joint()).unwrap();
    assert_eq!(
        barred.grow(&survey, &limits(vec![1]), &vec![4], &NO).err(),
        Some(Error::ForbiddenRead)
    );
    let mut stopped = Forest::new(layout(), 17, 19, false, 5, joint()).unwrap();
    let stop = Fixed { requested: true };
    assert_eq!(
        stopped.grow(&survey, &limits(Vec::new()), &vec![4], &stop).err(),
        Some(Error::Cancelled)
    );
}

#[test]
fn spans_and_budgets_of_a_plan() {
    let h = header("summaries", "hierarchy_tiles_v1");
    let size = h.summary_size() as u64;
    assert_eq!(summary_span(&h, 3), (65536 + 3 * size, size));
    let raw = header("raw", "flat_tiles_v1");
    let page = raw.raw_size() as u64;
    assert_eq!(raw_span(&raw, 2, 1), (65536 + 5 * page, page));
    let mut trace = Trace::new();
    trace.record(true, 100);
    trace.record(false, 200);
    assert_eq!(remaining_limits(joint(), trace), (10, 1 << 20));
    let all = JointQueryOptions {
        max_requests: usize::MAX,
        max_total_read_bytes: u64::MAX,
        ..joint()
    };
    assert_eq!(remaining_limits(all, trace), (4094, (128 << 20) - 300));
    let ranges = vec![PlanRange { raw: false, offset: 0, len: 100 }];
    let unread = Execution::new(ranges, 1, 100);
    assert_eq!(unread.finish(1, 100), Err(Error::JointUnread));
}
