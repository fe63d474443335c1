use skarve::error::Error;
use skarve::request::{Field, FieldValue, Operation, Request};
use skarve::routes::{
    check_exactextract, check_exactextract_job, check_ordered, check_prepare, choose_reduction,
    cumulative_serves, file_paths, raw_path, route_file, route_source, strategy_name, summary_path,
    Backend, FileRoute, Reduction, SourceRoute,
};
use skarve::session::{Kept, Session, ENTRY_BYTES, RETAINED_BYTES};
use skarve::session_call::{Action, Facts, Measurement, BUILDER_RESERVE};

const MAX_BYTES: usize = 2 << 30;

fn request(fields: &[(&str, &str)]) -> Request {
    Request {
        fields: fields
            .iter()
            .map(|(name, value)| Field {
                name: (*name).to_owned(),
                value: FieldValue::Text((*value).to_owned()),
            })
            .collect(),
    }
}

fn check(fields: &[(&str, &str)]) -> Result<Operation, Error> {
    request(fields).check("population")
}

fn ask(session: &mut Session, fields: &[(&str, &str)], facts: &Facts) -> Result<Action, Error> {
    session.call(&request(fields), "population", facts)
}

#[test]
fn oversized_cache_request_rejects_without_admission_overflow() {
    let mut session = Session::new(MAX_BYTES);
    let input = [("op", "register_source"), ("id", "oversized"), ("spec", "not-opened.tif")];
    assert_eq!(ask(&mut session, &input, &Facts::of(usize::MAX)), Err(Error::ReaderMemory));
    assert_eq!(session.readers.len(), 0);
}

#[test]
fn actual_reader_capacity_is_charged_before_admitting_another_reader() {
    let mut session = Session::new(MAX_BYTES);
    let baseline = session.bytes();
    session.add_source("small".to_owned(), 1).unwrap();
    session.add_source("large".to_owned(), 40 << 20).unwrap();
    assert_eq!(session.bytes() - baseline, 56 << 20);
    session.transient_reserve = MAX_BYTES - baseline as usize - (80 << 20);
    let input = [("op", "register_source"), ("id", "new"), ("spec", "not-opened.tif")];
    assert_eq!(
        ask(&mut session, &input, &Facts::of(4 * 1024 * 1024)),
        Err(Error::ReaderMemory)
    );
    assert_eq!(session.readers.len(), 2);
}

#[test]
fn future_decoded_cache_growth_is_reserved_before_touching_a_file() {
    let mut session = Session::new(MAX_BYTES);
    let configure = [("op", "configure_file_cache"), ("bytes", "")];
    ask(&mut session, &configure, &Facts::of(128 * 1024 * 1024)).unwrap();
    session.transient_reserve = MAX_BYTES - 448 * 1024 * 1024;
    let query = [
        ("op", "measure_registered_file"),
        ("source", "missing"),
        ("geometry", ""),
        ("crs", "EPSG:3857"),
    ];
    assert_eq!(ask(&mut session, &query, &Facts::of(0)), Err(Error::InsufficientMemory));
    ask(&mut session, &configure, &Facts::of(64 * 1024 * 1024)).unwrap();
    assert_eq!(ask(&mut session, &query, &Facts::of(0)), Err(Error::UnknownFile));
}

#[test]
fn retained_identifiers_crs_and_units_are_bounded_and_accounted() {
    let mut session = Session::new(MAX_BYTES);
    let raster = |crs: &str, unit: &str| Facts {
        units: vec![Some(unit.to_owned())],
        crs: crs.to_owned(),
        ..Facts::of(0)
    };
    let long = "x".repeat(1025);
    let open = |id: &'static str| [("op", "open"), ("id", id), ("raster", "")];
    assert_eq!(
        ask(
            &mut session,
            &[("op", "open"), ("id", &long), ("raster", "")],
            &raster("LOCAL", "units")
        ),
        Err(Error::LongIdentifier)
    );
    assert_eq!(session.bytes(), 0);
    assert_eq!(
        ask(&mut session, &open("r"), &raster("LOCAL", &long)),
        Err(Error::UnitLength)
    );
    assert_eq!(session.bytes(), 0);
    assert_eq!(
        ask(&mut session, &open("r"), &raster(&"x".repeat(4097), "units")),
        Err(Error::GridShape)
    );
    assert_eq!(session.bytes(), 0);
    assert_eq!(
        ask(&mut session, &open("r"), &raster("LOCAL", "units")),
        Ok(Action::Work(Operation::Open))
    );
    let units = vec![Some("units".to_owned())];
    assert_eq!(
        session.keep_raster("r".to_owned(), 9 + 5, &vec![Some(long.clone())], "LOCAL"),
        Err(Error::UnitLength)
    );
    session.keep_raster("r".to_owned(), 9 + 5, &units, "LOCAL").unwrap();
    assert!(session.bytes() > 65_536 + 9);
    let before = session.bytes();
    let oversized_plan =
        [("op", "compile"), ("id", long.as_str()), ("source", "r"), ("crs", "LOCAL")];
    assert_eq!(ask(&mut session, &oversized_plan, &Facts::of(0)), Err(Error::LongIdentifier));
    assert_eq!(session.bytes(), before);
}

#[test]
fn closing_gives_back_what_registering_took() {
    let mut session = Session::new(MAX_BYTES);
    let empty = session.bytes();
    let available = session.available();
    session.add_source("a".to_owned(), 20 << 20).unwrap();
    assert_eq!(session.available(), available - (20 << 20));
    assert_eq!(session.reader("a"), Ok(()));
    assert_eq!(session.check_register_source("a", 0), Err(Error::ReaderCount));
    session.close_source("a").unwrap();
    assert_eq!(session.bytes(), empty);
    assert_eq!(session.close_source("a"), Err(Error::UnknownReader));
    assert_eq!(session.reader("a"), Err(Error::UnknownReader));
}

#[test]
fn retained_indexes_belong_to_their_source() {
    let mut session = Session::new(MAX_BYTES);
    session.add_source("a".to_owned(), 1).unwrap();
    let register = |source: &'static str| {
        [("op", "register_index"), ("id", "i"), ("source", source), ("index", "dir")]
    };
    assert_eq!(ask(&mut session, &register("b"), &Facts::of(0)), Err(Error::UnknownReader));
    ask(&mut session, &register("a"), &Facts::of(0)).unwrap();
    let before = session.bytes();
    session.add_index("i".to_owned(), "a".to_owned(), 1 << 20, true).unwrap();
    assert_eq!(session.bytes() - before, (RETAINED_BYTES + ENTRY_BYTES) as u128);
    assert_eq!(
        session.add_index("j".to_owned(), "a".to_owned(), 1 << 20, false),
        Err(Error::RetainedBoundary)
    );
    let query = [
        ("op", "measure_source"),
        ("source", "a"),
        ("index_handle", "i"),
        ("geometry", ""),
        ("crs", "LOCAL"),
    ];
    assert_eq!(
        ask(&mut session, &query, &Facts::of(0)),
        Ok(Action::Source(SourceRoute::Retained))
    );
    let unknown = [
        ("op", "measure_source"),
        ("source", "a"),
        ("index_handle", "k"),
        ("geometry", ""),
        ("crs", "LOCAL"),
    ];
    assert_eq!(ask(&mut session, &unknown, &Facts::of(0)), Err(Error::UnknownIndex));
    assert!(session.check_retained_query("i", "a").is_ok());
    assert_eq!(session.check_retained_query("i", "b").err(), Some(Error::OtherSource));
    assert_eq!(session.check_retained_query("k", "a").err(), Some(Error::UnknownIndex));
    session.close_index("i").unwrap();
    assert_eq!(session.bytes(), before);
    assert_eq!(session.close_index("i"), Err(Error::UnknownIndex));
    assert_eq!(session.check_retained_query("i", "a").err(), Some(Error::UnknownIndex));
}

#[test]
fn jobs_files_and_plans_are_counted() {
    let mut session = Session::new(MAX_BYTES);
    for n in 0..8 {
        session.check_start_job(&format!("job{n}")).unwrap();
        session.add_job(format!("job{n}"), 1 << 20).unwrap();
    }
    assert_eq!(session.check_start_job("one more"), Err(Error::JobCount));
    session.close_job("job3").unwrap();
    assert_eq!(session.close_job("job3"), Err(Error::UnknownJob));
    assert_eq!(session.check_start_job("one more"), Ok(()));
    let file = |path: &str| ("f".to_owned(), path.to_owned(), "signed".to_owned());
    let (id, path, signature) = file("/data/f.tif");
    session.register_file(id, path, signature).unwrap();
    let (id, path, signature) = file("/data/g.tif");
    assert_eq!(session.register_file(id, path, signature), Err(Error::FileExists));
    assert_eq!(session.file("f"), Ok(("/data/f.tif".to_owned(), false)));
    assert_eq!(session.open_file("f", "changed"), Err(Error::SourceChanged));
    assert_eq!(session.file("f"), Ok(("/data/f.tif".to_owned(), false)));
    session.open_file("f", "signed").unwrap();
    assert_eq!(session.file("f"), Ok(("/data/f.tif".to_owned(), true)));
    session.open_file("f", "changed").unwrap();
    assert_eq!(session.open_file("g", "signed"), Err(Error::UnknownFile));
    session.close_file("f").unwrap();
    assert_eq!(session.close_file("f"), Err(Error::UnknownFile));
    session.add_plan("p".to_owned(), 100).unwrap();
    assert_eq!(session.add_plan("p".to_owned(), 100), Err(Error::PlanExists));
    session.drop_plan("p").unwrap();
    assert_eq!(session.drop_plan("p"), Err(Error::UnknownPlan));
    assert_eq!(session.add_plan("p".to_owned(), MAX_BYTES), Err(Error::PlanMemory));
}

#[test]
fn requests_reserve_a_multiple_of_their_length() {
    let mut session = Session::new(MAX_BYTES);
    assert_eq!(session.begin_request(67108865), Err(Error::RequestLength));
    assert_eq!(session.begin_request(40_000_000), Err(Error::RequestMemory));
    session.begin_request(1000).unwrap();
    assert_eq!(session.available(), MAX_BYTES - 64_000);
    session.end_request();
    assert_eq!(session.available(), MAX_BYTES);
    assert_eq!(session.check_index_query(1 << 20), Ok(()));
    assert_eq!(session.check_index_query(1 << 10), Err(Error::IndexQueryMemory));
}

#[test]
fn requests_name_a_known_operation_and_its_fields() {
    assert_eq!(check(&[("id", "a")]), Err(Error::MissingField));
    assert_eq!(check(&[("op", "nothing")]), Err(Error::UnknownOperation));
    assert_eq!(check(&[("op", "stats"), ("colour", "red")]), Err(Error::UnknownField));
    assert_eq!(check(&[("op", "stats")]), Ok(Operation::Stats));
    assert_eq!(check(&[("op", "open"), ("id", "a")]), Err(Error::PathOrRaster));
    assert_eq!(
        check(&[("op", "measure"), ("source", "a"), ("use_index", "yes")]),
        Err(Error::FieldNotBoolean)
    );
    assert_eq!(
        check(&[("op", "measure"), ("source", "a"), ("strategy", "slow")]),
        Err(Error::CoverageStrategy)
    );
    assert_eq!(
        check(&[("op", "measure"), ("plan", "p"), ("crs", "LOCAL")]),
        Err(Error::PlanExclusive)
    );
    let r = request(&[("op", "stats"), ("id", "a")]);
    assert_eq!(r.required("id").unwrap(), "a");
    assert_eq!(r.required("crs").err(), Some(Error::MissingField));
    assert!(r.contains("op") && !r.contains("crs"));
}

#[test]
fn routes_follow_the_options_of_a_request() {
    assert_eq!(summary_path("dir"), "dir/summary.rsi");
    assert_eq!(summary_path("dir/x.rsi"), "dir/x.rsi");
    assert_eq!(raw_path("dir"), "dir/pixels.rsr");
    assert_eq!(raw_path("https://host/dir"), "");
    assert_eq!(
        file_paths("dir/x.rsi", None),
        ("dir/x.rsi/summary.rsi".to_owned(), "dir/x.rsi/pixels.rsr".to_owned())
    );
    assert_eq!(
        file_paths("https://host/i", Some("https://host/r")),
        ("https://host/i".to_owned(), "https://host/r".to_owned())
    );
    assert_eq!(route_source(&request(&[]), false), Ok(SourceRoute::Direct));
    assert_eq!(route_source(&request(&[]), true), Ok(SourceRoute::Exactextract));
    assert_eq!(
        route_source(&request(&[("index_handle", "h")]), false),
        Ok(SourceRoute::Retained)
    );
    assert_eq!(
        route_source(&request(&[("index_handle", "h"), ("index", "i")]), false),
        Err(Error::RetainedConflict)
    );
    assert_eq!(route_source(&request(&[("index", "i")]), false), Ok(SourceRoute::Indexed));
    assert_eq!(
        route_file(&request(&[("index", "i"), ("source", "s")]), Operation::MeasureFile),
        Err(Error::IndexedFile)
    );
    assert_eq!(
        route_file(&request(&[("index", "i"), ("backend", "direct")]), Operation::MeasureFile),
        Ok(FileRoute::Indexed { force_direct: true, hierarchy: None })
    );
    assert_eq!(check_ordered(&request(&[])), Err(Error::OrderedPolicy));
    assert_eq!(
        check_prepare(&request(&[("backend", "auto")])),
        Err(Error::PreparationBackend)
    );
}

#[test]
fn prepared_representations_serve_what_they_hold() {
    let mut session = Session::new(MAX_BYTES);
    let measure = |backend: &'static str| {
        [
            ("op", "measure"),
            ("source", "r"),
            ("backend", backend),
            ("geometry", ""),
            ("crs", "LOCAL"),
        ]
    };
    let facts = |settings: &[usize], names: Option<&[&str]>| Facts {
        settings: settings.to_vec(),
        statistics: names.map(|names| names.iter().map(|n| (*n).to_owned()).collect()),
        crs: "LOCAL".to_owned(),
        ..Facts::of(100)
    };
    let sums: Option<&[&str]> = Some(&["sum"]);
    let s = &mut session;
    assert_eq!(ask(s, &measure("hierarchy"), &facts(&[], None)), Err(Error::UnknownSource));
    s.add_raster("r".to_owned(), 100).unwrap();
    assert_eq!(ask(s, &measure("hierarchy"), &facts(&[], None)), Err(Error::NotPrepared));
    let prepare =
        |backend: &'static str| [("op", "prepare"), ("source", "r"), ("backend", backend)];
    assert_eq!(
        ask(s, &prepare("hierarchy"), &facts(&[16], None)),
        Ok(Action::Prepare(Backend::Hierarchy))
    );
    assert_eq!(s.add_hierarchy("r".to_owned(), 16, 100, 50), Ok(Kept::Fresh));
    assert_eq!(
        s.add_hierarchy("r".to_owned(), 16, 100, 60),
        Ok(Kept::Already { bytes: 50 })
    );
    assert_eq!(s.add_hierarchy("r".to_owned(), 32, 100, 60), Err(Error::HierarchyLeaf));
    assert_eq!(
        ask(s, &prepare("hierarchy"), &facts(&[16], None)),
        Ok(Action::AlreadyPrepared { backend: Backend::Hierarchy, bytes: 50 })
    );
    assert_eq!(
        ask(s, &prepare("hierarchy"), &facts(&[32], None)),
        Err(Error::HierarchyLeaf)
    );
    assert_eq!(
        ask(s, &measure("hierarchy"), &facts(&[], None)),
        Ok(Action::Measure(Measurement::Hierarchy))
    );
    assert_eq!(
        s.add_cumulative("r".to_owned(), true, vec![0, 0, 1], 100, 50),
        Ok(Kept::Fresh)
    );
    assert_eq!(
        ask(s, &prepare("cumulative_full"), &facts(&[0, 0, 1], None)),
        Ok(Action::AlreadyPrepared { backend: Backend::CumulativeFull, bytes: 50 })
    );
    assert_eq!(
        ask(s, &prepare("cumulative_full"), &facts(&[0, 1], None)),
        Err(Error::CumulativeSettings)
    );
    assert_eq!(
        ask(s, &measure("cumulative_full"), &facts(&[], sums)),
        Ok(Action::Measure(Measurement::Cumulative { full: true }))
    );
    assert_eq!(
        ask(s, &measure("cumulative_blocked"), &facts(&[], sums)),
        Err(Error::NotPrepared)
    );
    assert_eq!(
        ask(s, &measure("cumulative_full"), &Facts { crs: "OTHER".to_owned(), ..facts(&[], sums) }),
        Err(Error::QueryCrs)
    );
    let raw = |fallback: bool| {
        Ok(Action::Measure(Measurement::Reduced {
            reduction: Reduction::Raw,
            kept_plan: false,
            fallback,
        }))
    };
    assert_eq!(ask(s, &measure("cumulative_full"), &facts(&[], None)), raw(true));
    assert_eq!(ask(s, &measure("auto"), &facts(&[], None)), raw(false));
    assert_eq!(
        ask(s, &measure("row_blocks"), &facts(&[], None)),
        Err(Error::RowBlocksIndex)
    );
    assert_eq!(
        ask(s, &measure("nothing"), &facts(&[], None)),
        Err(Error::ExecutionBackend)
    );
    assert_eq!(s.add_prepared("r".to_owned(), 100, 70), Ok(Kept::Fresh));
    assert_eq!(s.add_prepared("r".to_owned(), 100, 70), Ok(Kept::Already { bytes: 70 }));
    assert_eq!(
        ask(s, &measure("row_blocks"), &facts(&[], None)),
        Ok(Action::Measure(Measurement::Reduced {
            reduction: Reduction::RowBlocks,
            kept_plan: false,
            fallback: false,
        }))
    );
    s.transient_reserve = MAX_BYTES;
    assert_eq!(ask(s, &measure("hierarchy"), &facts(&[], None)), Err(Error::ScratchMemory));
    let named = |names: &[&str]| Some(names.iter().map(|n| (*n).to_owned()).collect());
    assert!(cumulative_serves(&named(&["sum", "mean"]), false));
    assert!(!cumulative_serves(&named(&["sum", "min"]), false));
    assert!(!cumulative_serves(&named(&["sum"]), true));
    assert!(!cumulative_serves(&None, false));
    assert_eq!(choose_reduction(Backend::Auto, None, true, true), Ok(Reduction::RowBlocks));
    assert_eq!(choose_reduction(Backend::Auto, Some(false), true, true), Ok(Reduction::Raw));
    assert_eq!(choose_reduction(Backend::Direct, None, true, true), Ok(Reduction::Raw));
    assert_eq!(
        choose_reduction(Backend::RowBlocks, None, false, true),
        Err(Error::RowBlocksIndex)
    );
    assert_eq!(strategy_name("scanline", Reduction::RowBlocks), "scanline_blocked");
    assert_eq!(strategy_name("direct", Reduction::RowBlocks), "direct");
    assert_eq!(check_exactextract(&request(&[]), true), Ok(()));
    assert_eq!(check_exactextract(&request(&[("plan", "p")]), true), Err(Error::ExactextractPlan));
    assert_eq!(
        check_exactextract_job(&request(&[("schedule", "s")])),
        Err(Error::ExactextractJob)
    );
}

#[test]
fn building_needs_its_memory_before_anything_is_read() {
    let mut session = Session::new(MAX_BYTES);
    let none = Facts::of(0);
    let file = [("op", "prepare_file"), ("path", "p"), ("index", "i")];
    let source = [("op", "prepare_source"), ("source", "s"), ("index", "i")];
    assert_eq!(
        ask(&mut session, &file, &none),
        Ok(Action::Work(Operation::PrepareFile))
    );
    assert_eq!(ask(&mut session, &source, &none), Err(Error::UnknownReader));
    session.transient_reserve = MAX_BYTES - BUILDER_RESERVE + 1;
    assert_eq!(ask(&mut session, &file, &none), Err(Error::BuilderSessionMemory));
    assert_eq!(ask(&mut session, &source, &none), Err(Error::BuilderSessionMemory));
}

#[test]
fn requests_keep_the_books_or_lead_to_work() {
    let mut session = Session::new(MAX_BYTES);
    let s = &mut session;
    let none = Facts::of(0);
    let register = [("op", "register_file"), ("id", "a"), ("path", "file")];
    assert_eq!(ask(s, &register, &none), Ok(Action::Work(Operation::RegisterFile)));
    s.register_file("a".to_owned(), "file".to_owned(), "signed".to_owned()).unwrap();
    assert_eq!(ask(s, &register, &none), Err(Error::FileExists));
    let of = |id: &'static str| {
        [("op", "measure_registered_file"), ("source", id), ("geometry", ""), ("crs", "LOCAL")]
    };
    let registered =
        |opened: bool| Ok(Action::File { route: FileRoute::Registered, opened });
    assert_eq!(ask(s, &of("a"), &none), registered(false));
    s.open_file("a", "signed").unwrap();
    assert_eq!(ask(s, &of("a"), &none), registered(true));
    assert_eq!(ask(s, &of("b"), &none), Err(Error::UnknownFile));
    let both = [("op", "measure_registered_file"), ("source", "a"), ("path", "file")];
    assert_eq!(ask(s, &both, &none), Err(Error::RegisteredPath));
    let indexed = [("op", "measure_file"), ("path", "p"), ("index", "i"), ("crs", "LOCAL")];
    assert_eq!(ask(s, &indexed, &none), Err(Error::IndexQueryMemory));
    assert_eq!(
        ask(s, &indexed, &Facts::of(1 << 20)),
        Ok(Action::File {
            route: FileRoute::Indexed { force_direct: false, hierarchy: None },
            opened: false,
        })
    );
    let wrong = [("op", "measure_registered_file"), ("path", "p"), ("index", "i")];
    assert_eq!(ask(s, &wrong, &none), Err(Error::IndexedFile));
    assert_eq!(ask(s, &[("op", "measure_file")], &none), Err(Error::MissingField));
    let close_file = [("op", "close_file"), ("source", "a")];
    assert_eq!(ask(s, &close_file, &none), Ok(Action::Done(Operation::CloseFile)));
    assert_eq!(ask(s, &close_file, &none), Err(Error::UnknownFile));
    let close_source = [("op", "close_source"), ("source", "a")];
    assert_eq!(ask(s, &close_source, &none), Err(Error::UnknownReader));
    s.add_source("a".to_owned(), 1 << 20).unwrap();
    let measure = [("op", "measure_source"), ("source", "a"), ("crs", "LOCAL"), ("geometry", "")];
    assert_eq!(ask(s, &measure, &none), Ok(Action::Source(SourceRoute::Direct)));
    assert_eq!(
        ask(s, &measure, &Facts { exact: true, ..Facts::of(0) }),
        Ok(Action::Source(SourceRoute::Exactextract))
    );
    let compile = [("op", "compile_source"), ("source", "a"), ("output", "o")];
    assert_eq!(ask(s, &compile, &Facts::of(MAX_BYTES)), Err(Error::CompilerMemory));
    assert_eq!(ask(s, &compile, &none), Ok(Action::Work(Operation::CompileSource)));
    let ordered = [("op", "measure_ordered_source"), ("source", "a"), ("request", "")];
    assert_eq!(ask(s, &ordered, &none), Err(Error::OrderedPolicy));
    let named = [
        ("op", "measure_ordered_source"),
        ("source", "a"),
        ("request", ""),
        ("numerical_policy", "hm_demographics_ordered_v1"),
    ];
    assert_eq!(ask(s, &named, &Facts::of(MAX_BYTES)), Err(Error::OrderedMemory));
    assert_eq!(ask(s, &named, &none), Ok(Action::Work(Operation::MeasureOrderedSource)));
    let people = [("op", "measure_hm_population"), ("source", "a"), ("mode", "population")];
    assert_eq!(ask(s, &people, &Facts::of(MAX_BYTES)), Err(Error::PopulationMemory));
    s.transient_reserve = MAX_BYTES - (17 << 20);
    assert_eq!(ask(s, &measure, &none), Err(Error::DirectMemory));
    assert_eq!(ask(s, &[("op", "verify_skv"), ("spec", "")], &none), Err(Error::VerifyMemory));
    s.transient_reserve = 0;
    assert_eq!(ask(s, &close_source, &none), Ok(Action::Done(Operation::CloseSource)));
    assert_eq!(ask(s, &[("op", "index_info"), ("id", "a")], &none), Err(Error::UnknownIndex));
    assert_eq!(ask(s, &[("op", "next_job"), ("id", "a")], &none), Err(Error::UnknownJob));
    assert_eq!(ask(s, &[("op", "drop_plan"), ("plan", "a")], &none), Err(Error::UnknownPlan));
    assert_eq!(ask(s, &[("op", "close"), ("source", "a")], &none), Err(Error::UnknownSource));
    assert_eq!(ask(s, &[("op", "open"), ("path", "p")], &none), Err(Error::MissingField));
    let profile = [("op", "measure_ordered_profile"), ("numerical_policy", "p")];
    assert_eq!(ask(s, &profile, &none), Err(Error::MissingField));
    let job = [("op", "start_job"), ("id", "j"), ("job", "")];
    assert_eq!(ask(s, &job, &none), Ok(Action::Job { exact: false }));
    let exact = Facts { exact: true, job: request(&[("tile_edge", "64")]), ..Facts::of(0) };
    assert_eq!(ask(s, &job, &exact), Err(Error::ExactextractJob));
    let configure = [("op", "configure_file_cache"), ("bytes", "")];
    assert_eq!(
        ask(s, &configure, &Facts::of(1 << 20)),
        Ok(Action::Done(Operation::ConfigureFileCache))
    );
    assert_eq!(s.cache_limit, 1 << 20);
    assert_eq!(ask(s, &configure, &Facts::of(usize::MAX)), Err(Error::CacheBudget));
    assert_eq!(ask(s, &[("op", "stats")], &none), Ok(Action::Work(Operation::Stats)));
    assert_eq!(ask(s, &[("op", "nothing")], &none), Err(Error::UnknownOperation));
}
