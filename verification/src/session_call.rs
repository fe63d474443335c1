//! What a session does with a request: it checks it, keeps its own books, and sends the work that
//! reads, builds or computes where it is done, only where what that needs is known and fits.
use vstd::prelude::*;

use crate::error::Error;
use crate::model::MAX_CRS_BYTES;
use crate::request::{operation_of, request_refusal, Operation, Request};
use crate::routes::{
    backend_named, backend_of, check_exactextract, check_exactextract_job, check_ordered,
    check_prepare, choose_reduction, cumulative_serves, extraction_job_refusal, extraction_refusal,
    file_paths, file_route, find_backend, index_options, ordered_refusal, preparation, query_files, raw_file, raw_path,
    reduction_of, route_file,
    route_source, serves_cumulatively, source_route, summary_file, summary_path, Backend, FileRoute, Reduction, SourceRoute,
};
use crate::session::{
    charged, file_opened, has_retained, keeps, larger, left_of, plain, prior, retained_at, retained_refusal,
    without, Kept, Registered, Row, Session, ENTRY_BYTES, RETAINED_BYTES,
};
use crate::source_raw::MAX_UNIT_BYTES;
use crate::text::{byte_len, same, utf8};

verus! {

/// What an index builder may hold.
pub const BUILDER_RESERVE: usize = 268435456;

/// What a complete verification of a serving object may hold.
pub const VERIFY_WORKING_BYTES: usize = 134217728;

/// What a query that decodes its source may hold.
pub const DIRECT_RESERVE: usize = 402653184;

/// What a query over an index may hold beside its own reads.
pub const INDEX_RESERVE: usize = 134217728;

/// What a query over a prepared field may hold.
pub const SCRATCH_RESERVE: usize = 134217728;

/// What is known of a request beside its fields: what its documents ask for, what the choice of
/// the engine gave, and what the rasters and plans that it names or brings are.
pub struct Facts {
    /// The bytes that the options ask for.
    pub need: usize,
    /// Exact extraction was chosen.
    pub exact: bool,
    /// What a field is prepared with: the size of its leaves, or its origin and its bands.
    pub settings: Vec<usize>,
    pub statistics: Option<Vec<String>>,
    /// The statistics can be reduced from row blocks.
    pub eligible: bool,
    /// The units and the coordinate system of the raster.
    pub units: Vec<Option<String>>,
    pub crs: String,
    /// The plan is of the raster's grid.
    pub plan_grid: bool,
    /// The fields of a job.
    pub job: Request,
}

impl Facts {
    /// The facts of a request that asks for so many bytes, and is otherwise plain.
    pub fn of(need: usize) -> (r: Facts)
        ensures
            r.need == need,
            !r.exact,
            r.settings@.len() == 0,
            r.statistics is None,
            r.eligible,
            r.units@.len() == 0,
            r.crs@ == ""@,
            r.plan_grid,
            r.job.fields@.len() == 0,
    {
        Facts {
            need,
            exact: false,
            settings: Vec::new(),
            statistics: None,
            eligible: true,
            units: Vec::new(),
            crs: "".to_owned(),
            plan_grid: true,
            job: Request { fields: Vec::new() },
        }
    }
}

/// How an opened raster is measured.
#[derive(Clone, Copy, Debug, PartialEq, Eq, Structural)]
pub enum Measurement {
    Exactextract,
    Hierarchy,
    Cumulative { full: bool },
    /// Along a plan that is kept, or one that is compiled for it. A cumulative field that was
    /// asked for cannot answer.
    Reduced { reduction: Reduction, kept_plan: bool, fallback: bool },
}

/// What a request leads to.
#[derive(Clone, Copy, Debug, PartialEq, Eq)]
pub enum Action {
    /// The session has done it.
    Done(Operation),
    /// The work of an operation that goes one way only.
    Work(Operation),
    /// A query on a registered source.
    Source(SourceRoute),
    /// A query on a file, and whether it was opened before.
    File { route: FileRoute, opened: bool },
    Prepare(Backend),
    AlreadyPrepared { backend: Backend, bytes: usize },
    /// A coverage plan is compiled and kept.
    Plan,
    Measure(Measurement),
    Job { exact: bool },
}

/// The first of two refusals.
pub open spec fn first(a: Option<Error>, b: Option<Error>) -> Option<Error> {
    if a is Some {
        a
    } else {
        b
    }
}

pub open spec fn unless(e: Option<Error>, action: Action) -> Result<Action, Error> {
    match e {
        Some(e) => Err(e),
        None => Ok(action),
    }
}

/// A text field that must be there.
pub open spec fn missing(r: Request, name: Seq<char>) -> Option<Error> {
    if r.text_of(name) is None {
        Some(Error::MissingField)
    } else {
        None
    }
}

/// What does not leave so many bytes is refused.
pub open spec fn short_of(s: Registered, bytes: int, e: Error) -> Option<Error> {
    if left_of(s) < bytes {
        Some(e)
    } else {
        None
    }
}

pub open spec fn listed_refusal(t: Seq<Row>, id: Option<Seq<char>>, e: Error) -> Option<Error> {
    match id {
        None => Some(Error::MissingField),
        Some(id) => if keeps(t, id) {
            None
        } else {
            Some(e)
        },
    }
}

/// Why a reader that a field names is not there.
pub open spec fn reader_refusal(s: Registered, r: Request) -> Option<Error> {
    listed_refusal(s.readers, r.text_of("source"@), Error::UnknownReader)
}

pub open spec fn job_refusal(s: Registered, r: Request) -> Option<Error> {
    match r.text_of("id"@) {
        None => Some(Error::MissingField),
        Some(id) => if keeps(s.jobs, id) || keeps(s.exactextract_jobs, id) {
            None
        } else {
            Some(Error::UnknownJob)
        },
    }
}

pub open spec fn retained_id_refusal(s: Registered, r: Request) -> Option<Error> {
    match r.text_of("id"@) {
        None => Some(Error::MissingField),
        Some(id) => if has_retained(s, id) {
            None
        } else {
            Some(Error::UnknownIndex)
        },
    }
}

/// Why a raster is not kept: a unit or a coordinate system that is too long.
pub open spec fn raster_refusal(units: Seq<Option<String>>, crs: Seq<char>) -> Option<Error> {
    if utf8(crs).len() > MAX_CRS_BYTES {
        Some(Error::GridShape)
    } else if !units_kept(units) {
        Some(Error::UnitLength)
    } else {
        None
    }
}

/// The units of an opened raster are short enough to keep.
pub open spec fn units_kept(units: Seq<Option<String>>) -> bool {
    forall|i: int|
        0 <= i < units.len() && (#[trigger] units[i]) is Some ==> utf8(units[i]->0@).len()
            <= MAX_UNIT_BYTES
}

/// Where a query on a registered source goes, and what keeps it from there.
pub open spec fn source_decision(s: Registered, r: Request, facts: Facts) -> Result<Action, Error> {
    match reader_refusal(s, r) {
        Some(e) => Err(e),
        None => match source_route(r, facts.exact) {
            Err(e) => Err(e),
            Ok(route) => unless(
                first(
                    match route {
                        SourceRoute::Exactextract => None,
                        SourceRoute::Retained => retained_refusal(
                            s,
                            r.text_of("index_handle"@)->0,
                            r.text_of("source"@)->0,
                        ),
                        SourceRoute::Indexed => short_of(
                            s,
                            facts.need + INDEX_RESERVE,
                            Error::IndexQueryMemory,
                        ),
                        SourceRoute::Direct => short_of(
                            s,
                            DIRECT_RESERVE as int,
                            Error::DirectMemory,
                        ),
                    },
                    missing(r, "crs"@),
                ),
                Action::Source(route),
            ),
        },
    }
}

/// Where a query on a file goes, and what keeps it from there.
pub open spec fn file_decision(s: Registered, op: Operation, r: Request, facts: Facts) -> Result<
    Action,
    Error,
> {
    let route = file_route(r, op);
    let refused = if route is Err {
        Some(route->Err_0)
    } else {
        None
    };
    if r.has("index"@) {
        if op != Operation::MeasureFile || r.has("source"@) {
            Err(Error::IndexedFile)
        } else if !(1048576 <= facts.need <= 134217728 && facts.need + INDEX_RESERVE <= left_of(
            s,
        )) {
            Err(Error::IndexQueryMemory)
        } else {
            unless(
                first(refused, missing(r, "crs"@)),
                Action::File { route: route->Ok_0, opened: false },
            )
        }
    } else if index_options(r) {
        Err(Error::PersistentOptions)
    } else if left_of(s) < DIRECT_RESERVE {
        Err(Error::InsufficientMemory)
    } else if refused is Some {
        Err(refused->0)
    } else if op == Operation::MeasureRegisteredFile {
        unless(
            first(
                listed_refusal(s.files, r.text_of("source"@), Error::UnknownFile),
                missing(r, "crs"@),
            ),
            Action::File {
                route: route->Ok_0,
                opened: file_opened(s.files, r.text_of("source"@)->0),
            },
        )
    } else {
        unless(
            first(missing(r, "path"@), missing(r, "crs"@)),
            Action::File { route: route->Ok_0, opened: false },
        )
    }
}

/// What preparing an opened raster leads to.
pub open spec fn prepare_decision(s: Registered, r: Request, facts: Facts) -> Result<Action, Error> {
    match listed_refusal(s.sources, r.text_of("source"@), Error::UnknownSource) {
        Some(e) => Err(e),
        None => match preparation(r) {
            Err(e) => Err(e),
            Ok(backend) => {
                let id = r.text_of("source"@)->0;
                let before = match backend {
                    Backend::Hierarchy => prior(
                        s.hierarchies,
                        id,
                        facts.settings@,
                        Error::HierarchyLeaf,
                    ),
                    Backend::CumulativeFull => prior(
                        s.cumulative_full,
                        id,
                        facts.settings@,
                        Error::CumulativeSettings,
                    ),
                    Backend::CumulativeBlocked => prior(
                        s.cumulative_blocked,
                        id,
                        facts.settings@,
                        Error::CumulativeSettings,
                    ),
                    _ => prior(s.indexes, id, Seq::empty(), Error::PreparedMemory),
                };
                match before {
                    Some(Err(e)) => Err(e),
                    Some(Ok(Kept::Already { bytes })) => Ok(
                        Action::AlreadyPrepared { backend, bytes },
                    ),
                    _ => unless(
                        short_of(s, facts.need + ENTRY_BYTES, Error::PreparedMemory),
                        Action::Prepare(backend),
                    ),
                }
            },
        },
    }
}

/// A query by a prepared field takes neither a strategy nor row blocks.
pub open spec fn field_options(r: Request) -> Option<Error> {
    if r.has("strategy"@) || r.has("use_index"@) {
        Some(Error::BackendOptions)
    } else {
        None
    }
}

pub open spec fn unprepared(t: Seq<Row>, r: Request) -> Option<Error> {
    if keeps(t, r.text_of("source"@)->0) {
        None
    } else {
        Some(Error::NotPrepared)
    }
}

/// Why the plan of a query on an opened raster is none: a plan that is kept must be of the grid,
/// and one that is compiled needs a coordinate system.
pub open spec fn plan_refusal(s: Registered, r: Request, facts: Facts) -> Option<Error> {
    match r.text_of("plan"@) {
        Some(id) => if !keeps(s.plans, id) {
            Some(Error::UnknownPlan)
        } else if !facts.plan_grid {
            Some(Error::PlanGrid)
        } else {
            None
        },
        None => missing(r, "crs"@),
    }
}

/// How an opened raster is measured along a plan.
pub open spec fn plan_decision(
    s: Registered,
    op: Operation,
    r: Request,
    facts: Facts,
    backend: Backend,
    fallback: bool,
) -> Result<Action, Error> {
    match plan_refusal(s, r, facts) {
        Some(e) => Err(e),
        None => if op == Operation::Compile {
            if s.plans.len() >= 128 {
                Err(Error::PlanCount)
            } else {
                match r.text_of("id"@) {
                    None => Err(Error::MissingField),
                    Some(id) => if keeps(s.plans, id) {
                        Err(Error::PlanExists)
                    } else {
                        Ok(Action::Plan)
                    },
                }
            }
        } else {
            match reduction_of(
                backend,
                r.flag_of("use_index"@),
                keeps(s.indexes, r.text_of("source"@)->0),
                facts.eligible,
            ) {
                Err(e) => Err(e),
                Ok(reduction) => Ok(
                    Action::Measure(
                        Measurement::Reduced {
                            reduction,
                            kept_plan: r.text_of("plan"@) is Some,
                            fallback,
                        },
                    ),
                ),
            }
        },
    }
}

/// How an opened raster is measured by a cumulative field.
pub open spec fn cumulative_decision(s: Registered, r: Request, facts: Facts, full: bool) -> Result<
    Action,
    Error,
> {
    let table = if full {
        s.cumulative_full
    } else {
        s.cumulative_blocked
    };
    let prepared = first(
        field_options(r),
        short_of(s, SCRATCH_RESERVE as int, Error::ScratchMemory),
    );
    if prepared is Some {
        Err(prepared->0)
    } else if serves_cumulatively(facts.statistics, r.has("plan"@)) {
        if r.text_of("crs"@) is None {
            Err(Error::MissingField)
        } else if r.text_of("crs"@)->0 != facts.crs@ {
            Err(Error::QueryCrs)
        } else {
            unless(unprepared(table, r), Action::Measure(Measurement::Cumulative { full }))
        }
    } else {
        let backend = if full {
            Backend::CumulativeFull
        } else {
            Backend::CumulativeBlocked
        };
        plan_decision(s, Operation::Measure, r, facts, backend, true)
    }
}

/// How an opened raster is measured, or a plan over it compiled, and what keeps it from that.
pub open spec fn raster_decision(s: Registered, op: Operation, r: Request, facts: Facts) -> Result<
    Action,
    Error,
> {
    let measures = op == Operation::Measure;
    match listed_refusal(s.sources, r.text_of("source"@), Error::UnknownSource) {
        Some(e) => Err(e),
        None => if facts.exact {
            unless(
                first(extraction_refusal(r, measures), missing(r, "crs"@)),
                Action::Measure(Measurement::Exactextract),
            )
        } else {
            match backend_named(backend_of(r)) {
                None => Err(Error::ExecutionBackend),
                Some(backend) => if measures && backend == Backend::Hierarchy {
                    unless(
                        first(
                            first(
                                field_options(r),
                                short_of(s, SCRATCH_RESERVE as int, Error::ScratchMemory),
                            ),
                            if r.has("plan"@) {
                                Some(Error::HierarchyPlan)
                            } else {
                                first(unprepared(s.hierarchies, r), missing(r, "crs"@))
                            },
                        ),
                        Action::Measure(Measurement::Hierarchy),
                    )
                } else if measures && backend == Backend::CumulativeFull {
                    cumulative_decision(s, r, facts, true)
                } else if measures && backend == Backend::CumulativeBlocked {
                    cumulative_decision(s, r, facts, false)
                } else {
                    plan_decision(s, op, r, facts, backend, false)
                },
            }
        },
    }
}

/// What a checked request leads to: the refusals of its operation in their order, or where it
/// goes.
pub open spec fn decision(session: Session, op: Operation, r: Request, facts: Facts) -> Result<
    Action,
    Error,
> {
    let s = session@;
    let need = facts.need as int;
    match op {
        Operation::RegisterSource => match r.text_of("id"@) {
            None => Err(Error::MissingField),
            Some(id) => if keeps(s.readers, id) || keeps(s.sources, id) || s.readers.len() >= 32 {
                Err(Error::ReaderCount)
            } else {
                unless(
                    short_of(s, Session::opening_bytes(need), Error::ReaderMemory),
                    Action::Work(op),
                )
            },
        },
        Operation::SourceInfo => unless(reader_refusal(s, r), Action::Work(op)),
        Operation::SourceMetrics => unless(reader_refusal(s, r), Action::Work(op)),
        Operation::BeginSourceQuery => unless(reader_refusal(s, r), Action::Work(op)),
        Operation::BeginVerifiedSourceQuery => unless(reader_refusal(s, r), Action::Work(op)),
        Operation::EndVerifiedSourceQuery => unless(reader_refusal(s, r), Action::Work(op)),
        Operation::CloseSource => unless(reader_refusal(s, r), Action::Done(op)),
        Operation::CompileSource => unless(
            first(
                first(short_of(s, need, Error::CompilerMemory), reader_refusal(s, r)),
                missing(r, "output"@),
            ),
            Action::Work(op),
        ),
        Operation::MeasureOrderedSource => unless(
            first(
                first(ordered_refusal(r), short_of(s, need, Error::OrderedMemory)),
                reader_refusal(s, r),
            ),
            Action::Work(op),
        ),
        Operation::MeasureOrderedProfile => unless(
            first(
                first(missing(r, "numerical_policy"@), missing(r, "view_id"@)),
                if r.has("access_class"@) && r.text_of("access_class"@) is None {
                    Some(Error::AccessClass)
                } else {
                    None
                },
            ),
            Action::Work(op),
        ),
        Operation::MeasureHmPopulation => unless(
            first(
                first(short_of(s, need, Error::PopulationMemory), reader_refusal(s, r)),
                if r.has("expected_build_id"@) && !r.has("index"@) {
                    Some(Error::PopulationBuild)
                } else {
                    None
                },
            ),
            Action::Work(op),
        ),
        Operation::PrepareSource => unless(
            first(
                first(
                    short_of(s, BUILDER_RESERVE as int, Error::BuilderSessionMemory),
                    reader_refusal(s, r),
                ),
                missing(r, "index"@),
            ),
            Action::Work(op),
        ),
        Operation::PrepareFile => unless(
            first(
                first(
                    short_of(s, BUILDER_RESERVE as int, Error::BuilderSessionMemory),
                    missing(r, "path"@),
                ),
                missing(r, "index"@),
            ),
            Action::Work(op),
        ),
        Operation::VerifySkv => unless(
            short_of(s, VERIFY_WORKING_BYTES as int, Error::VerifyMemory),
            Action::Work(op),
        ),
        Operation::RegisterIndex => match r.text_of("id"@) {
            None => Err(Error::MissingField),
            Some(id) => if has_retained(s, id) || s.retained.len() >= 16 {
                Err(Error::IndexCount)
            } else {
                unless(
                    first(
                        first(
                            short_of(
                                s,
                                RETAINED_BYTES + ENTRY_BYTES,
                                Error::RetainedIndexMemory,
                            ),
                            reader_refusal(s, r),
                        ),
                        missing(r, "index"@),
                    ),
                    Action::Work(op),
                )
            },
        },
        Operation::IndexInfo => unless(retained_id_refusal(s, r), Action::Work(op)),
        Operation::CloseIndex => unless(retained_id_refusal(s, r), Action::Done(op)),
        Operation::MeasureSource => source_decision(s, r, facts),
        Operation::StartJob => match r.text_of("id"@) {
            None => Err(Error::MissingField),
            Some(id) => if keeps(s.jobs, id) || keeps(s.exactextract_jobs, id) || s.jobs.len()
                + s.exactextract_jobs.len() >= 8 {
                Err(Error::JobCount)
            } else {
                unless(
                    if facts.exact {
                        extraction_job_refusal(facts.job)
                    } else {
                        None
                    },
                    Action::Job { exact: facts.exact },
                )
            },
        },
        Operation::NextJob => unless(job_refusal(s, r), Action::Work(op)),
        Operation::JobInfo => unless(job_refusal(s, r), Action::Work(op)),
        Operation::CloseJob => unless(job_refusal(s, r), Action::Done(op)),
        Operation::Open => if s.sources.len() >= 128 {
            Err(Error::SourceCount)
        } else {
            match r.text_of("id"@) {
                None => Err(Error::MissingField),
                Some(id) => if keeps(s.sources, id) {
                    Err(Error::SourceExists)
                } else {
                    unless(
                        first(
                            short_of(s, ENTRY_BYTES as int, Error::SourceMetadataBudget),
                            raster_refusal(facts.units@, facts.crs@),
                        ),
                        Action::Work(op),
                    )
                },
            }
        },
        Operation::Close => unless(
            listed_refusal(s.sources, r.text_of("source"@), Error::UnknownSource),
            Action::Done(op),
        ),
        Operation::Prepare => prepare_decision(s, r, facts),
        Operation::Compile => raster_decision(s, op, r, facts),
        Operation::Measure => raster_decision(s, op, r, facts),
        Operation::DropPlan => unless(
            listed_refusal(s.plans, r.text_of("plan"@), Error::UnknownPlan),
            Action::Done(op),
        ),
        Operation::RegisterFile => match (r.text_of("id"@), r.text_of("path"@)) {
            (Some(id), Some(path)) => unless(session.file_refusal(id, path), Action::Work(op)),
            _ => Err(Error::MissingField),
        },
        Operation::CloseFile => unless(
            listed_refusal(s.files, r.text_of("source"@), Error::UnknownFile),
            Action::Done(op),
        ),
        Operation::ConfigureFileCache => if need <= left_of(s) + larger(
            s.cache_limit,
            s.cache_bytes,
        ) {
            Ok(Action::Done(op))
        } else {
            Err(Error::CacheBudget)
        },
        Operation::MeasureFile => file_decision(s, op, r, facts),
        Operation::MeasureRegisteredFile => file_decision(s, op, r, facts),
        Operation::ClearFileCache => Ok(Action::Done(op)),
        Operation::Stats => Ok(Action::Work(op)),
        Operation::Backends => Ok(Action::Work(op)),
    }
}

/// What an accepted request leaves registered.
pub open spec fn call_effect(a: Registered, b: Registered, op: Operation, r: Request, facts: Facts) -> bool {
    match op {
        Operation::CloseSource => b == (Registered {
            readers: without(a.readers, r.text_of("source"@)->0),
            ..a
        }),
        Operation::CloseIndex => exists|i: int| #[trigger]
            retained_at(a, r.text_of("id"@)->0, i) && b == (Registered {
                retained: a.retained.remove(i),
                ..a
            }),
        Operation::CloseJob => {
            let id = r.text_of("id"@)->0;
            b == (Registered {
                jobs: without(a.jobs, id),
                exactextract_jobs: without(a.exactextract_jobs, id),
                job_provenance: without(a.job_provenance, id),
                ..a
            })
        },
        Operation::CloseFile => b == (Registered {
            files: without(a.files, r.text_of("source"@)->0),
            cache_bytes: 0,
            ..a
        }),
        Operation::ConfigureFileCache => b == (Registered {
            cache_limit: facts.need as int,
            cache_bytes: if a.cache_bytes > facts.need {
                facts.need as int
            } else {
                a.cache_bytes
            },
            ..a
        }),
        Operation::ClearFileCache => b == (Registered { cache_bytes: 0, ..a }),
        Operation::Close => {
            let id = r.text_of("source"@)->0;
            b == (Registered {
                sources: without(a.sources, id),
                indexes: without(a.indexes, id),
                hierarchies: without(a.hierarchies, id),
                cumulative_full: without(a.cumulative_full, id),
                cumulative_blocked: without(a.cumulative_blocked, id),
                ..a
            })
        },
        Operation::DropPlan => b == (Registered {
            plans: without(a.plans, r.text_of("plan"@)->0),
            ..a
        }),
        _ => b == a,
    }
}

impl Session {
    fn reader_of(&self, r: &Request) -> (out: Result<(), Error>)
        ensures
            out == match reader_refusal(self@, *r) {
                Some(e) => Err::<(), Error>(e),
                None => Ok(()),
            },
    {
        let id = r.required("source")?;
        self.reader(id.as_str())
    }

    /// A raster that a field names.
    fn raster_of(&self, r: &Request) -> (out: Result<(), Error>)
        ensures
            out == match listed_refusal(
                self@.sources,
                r.text_of("source"@),
                Error::UnknownSource,
            ) {
                Some(e) => Err::<(), Error>(e),
                None => Ok(()),
            },
    {
        let id = r.required("source")?;
        if self.sources.contains(id.as_str()) {
            Ok(())
        } else {
            Err(Error::UnknownSource)
        }
    }

    fn job_of(&self, r: &Request) -> (out: Result<(), Error>)
        ensures
            out == match job_refusal(self@, *r) {
                Some(e) => Err::<(), Error>(e),
                None => Ok(()),
            },
    {
        let id = r.required("id")?;
        if self.jobs.contains(id.as_str()) || self.exactextract_jobs.contains(id.as_str()) {
            Ok(())
        } else {
            Err(Error::UnknownJob)
        }
    }

    fn decide_source(&self, r: &Request, facts: &Facts) -> (out: Result<Action, Error>)
        requires
            self.wf(),
        ensures
            out == source_decision(self@, *r, *facts),
    {
        self.reader_of(r)?;
        let route: SourceRoute = route_source(r, facts.exact)?;
        match route {
            SourceRoute::Exactextract => {},
            SourceRoute::Retained => {
                let handle = r.required("index_handle")?;
                let source = r.required("source")?;
                let i: usize = self.check_retained_query(handle.as_str(), source.as_str())?;
            },
            SourceRoute::Indexed => {
                if facts.need as u128 + INDEX_RESERVE as u128 > self.available() as u128 {
                    return Err(Error::IndexQueryMemory);
                }
            },
            SourceRoute::Direct => {
                self.needs(DIRECT_RESERVE, Error::DirectMemory)?;
            },
        }
        let crs = r.required("crs")?;
        Ok(Action::Source(route))
    }

    fn decide_file(&self, op: Operation, r: &Request, facts: &Facts) -> (out: Result<Action, Error>)
        requires
            self.wf(),
        ensures
            out == file_decision(self@, op, *r, *facts),
    {
        let route = route_file(r, op);
        if r.contains("index") {
            if let Err(Error::IndexedFile) = route {
                return Err(Error::IndexedFile);
            }
            self.check_index_query(facts.need)?;
            let route: FileRoute = route?;
            let crs = r.required("crs")?;
            return Ok(Action::File { route, opened: false });
        }
        if let Err(Error::PersistentOptions) = route {
            return Err(Error::PersistentOptions);
        }
        self.needs(DIRECT_RESERVE, Error::InsufficientMemory)?;
        let route: FileRoute = route?;
        match op {
            Operation::MeasureRegisteredFile => {
                let id = r.required("source")?;
                let opened: bool = match self.files.entry(id.as_str()) {
                    Some(entry) => entry.settings.len() > 0,
                    None => return Err(Error::UnknownFile),
                };
                let crs = r.required("crs")?;
                Ok(Action::File { route, opened })
            },
            _ => {
                let path = r.required("path")?;
                let crs = r.required("crs")?;
                Ok(Action::File { route, opened: false })
            },
        }
    }

    fn decide_prepare(&self, r: &Request, facts: &Facts) -> (out: Result<Action, Error>)
        requires
            self.wf(),
        ensures
            out == prepare_decision(self@, *r, *facts),
    {
        self.raster_of(r)?;
        let backend: Backend = check_prepare(r)?;
        let id = r.required("source")?;
        let none: Vec<usize> = Vec::new();
        let before: Option<Result<Kept, Error>> = match backend {
            Backend::Hierarchy => self.prepared_before(
                &self.hierarchies,
                id.as_str(),
                &facts.settings,
                Error::HierarchyLeaf,
            ),
            Backend::CumulativeFull => self.prepared_before(
                &self.cumulative_full,
                id.as_str(),
                &facts.settings,
                Error::CumulativeSettings,
            ),
            Backend::CumulativeBlocked => self.prepared_before(
                &self.cumulative_blocked,
                id.as_str(),
                &facts.settings,
                Error::CumulativeSettings,
            ),
            _ => self.prepared_before(&self.indexes, id.as_str(), &none, Error::PreparedMemory),
        };
        match before {
            Some(Err(e)) => return Err(e),
            Some(Ok(Kept::Already { bytes })) => {
                return Ok(Action::AlreadyPrepared { backend, bytes });
            },
            _ => {},
        }
        if facts.need as u128 + ENTRY_BYTES as u128 > self.available() as u128 {
            return Err(Error::PreparedMemory);
        }
        Ok(Action::Prepare(backend))
    }

    fn decide_plan(
        &self,
        op: Operation,
        r: &Request,
        facts: &Facts,
        backend: Backend,
        fallback: bool,
    ) -> (out: Result<Action, Error>)
        requires
            self.wf(),
            r.text_of("source"@) is Some,
        ensures
            out == plan_decision(self@, op, *r, *facts, backend, fallback),
    {
        let kept_plan: bool = match r.text("plan") {
            Some(id) => {
                if !self.plans.contains(id.as_str()) {
                    return Err(Error::UnknownPlan);
                }
                if !facts.plan_grid {
                    return Err(Error::PlanGrid);
                }
                true
            },
            None => {
                let crs = r.required("crs")?;
                false
            },
        };
        match op {
            Operation::Compile => {
                if self.plans.len() >= 128 {
                    return Err(Error::PlanCount);
                }
                let id = r.required("id")?;
                if self.plans.contains(id.as_str()) {
                    return Err(Error::PlanExists);
                }
                Ok(Action::Plan)
            },
            _ => {
                let source = r.required("source")?;
                let reduction: Reduction = choose_reduction(
                    backend,
                    r.flag("use_index"),
                    self.indexes.contains(source.as_str()),
                    facts.eligible,
                )?;
                Ok(Action::Measure(Measurement::Reduced { reduction, kept_plan, fallback }))
            },
        }
    }

    fn decide_cumulative(&self, r: &Request, facts: &Facts, full: bool) -> (out: Result<
        Action,
        Error,
    >)
        requires
            self.wf(),
            r.text_of("source"@) is Some,
        ensures
            out == cumulative_decision(self@, *r, *facts, full),
    {
        if r.contains("strategy") || r.contains("use_index") {
            return Err(Error::BackendOptions);
        }
        self.needs(SCRATCH_RESERVE, Error::ScratchMemory)?;
        if cumulative_serves(&facts.statistics, r.contains("plan")) {
            let crs = r.required("crs")?;
            if !same(crs.as_str(), facts.crs.as_str()) {
                return Err(Error::QueryCrs);
            }
            let source = r.required("source")?;
            let there: bool = if full {
                self.cumulative_full.contains(source.as_str())
            } else {
                self.cumulative_blocked.contains(source.as_str())
            };
            if !there {
                return Err(Error::NotPrepared);
            }
            return Ok(Action::Measure(Measurement::Cumulative { full }));
        }
        let backend: Backend = if full {
            Backend::CumulativeFull
        } else {
            Backend::CumulativeBlocked
        };
        self.decide_plan(Operation::Measure, r, facts, backend, true)
    }

    fn decide_raster(&self, op: Operation, r: &Request, facts: &Facts) -> (out: Result<
        Action,
        Error,
    >)
        requires
            self.wf(),
        ensures
            out == raster_decision(self@, op, *r, *facts),
    {
        self.raster_of(r)?;
        let measures: bool = match op {
            Operation::Measure => true,
            _ => false,
        };
        if facts.exact {
            check_exactextract(r, measures)?;
            let crs = r.required("crs")?;
            return Ok(Action::Measure(Measurement::Exactextract));
        }
        let found: Option<Backend> = match r.text("backend") {
            Some(name) => find_backend(name.as_str()),
            None => find_backend("auto"),
        };
        let backend: Backend = match found {
            Some(backend) => backend,
            None => return Err(Error::ExecutionBackend),
        };
        if measures {
            match backend {
                Backend::Hierarchy => {
                    if r.contains("strategy") || r.contains("use_index") {
                        return Err(Error::BackendOptions);
                    }
                    self.needs(SCRATCH_RESERVE, Error::ScratchMemory)?;
                    if r.contains("plan") {
                        return Err(Error::HierarchyPlan);
                    }
                    let source = r.required("source")?;
                    if !self.hierarchies.contains(source.as_str()) {
                        return Err(Error::NotPrepared);
                    }
                    let crs = r.required("crs")?;
                    return Ok(Action::Measure(Measurement::Hierarchy));
                },
                Backend::CumulativeFull => {
                    return self.decide_cumulative(r, facts, true);
                },
                Backend::CumulativeBlocked => {
                    return self.decide_cumulative(r, facts, false);
                },
                _ => {},
            }
        }
        self.decide_plan(op, r, facts, backend, false)
    }

    /// Decide what a checked request leads to, before anything is changed.
    #[verifier::rlimit(60)]
    pub fn decide(&self, op: Operation, r: &Request, facts: &Facts) -> (out: Result<Action, Error>)
        requires
            self.wf(),
        ensures
            out == decision(*self, op, *r, *facts),
    {
        match op {
            Operation::RegisterSource => {
                let id = r.required("id")?;
                self.check_register_source(id.as_str(), facts.need)?;
            },
            Operation::SourceInfo => {
                self.reader_of(r)?;
            },
            Operation::SourceMetrics => {
                self.reader_of(r)?;
            },
            Operation::BeginSourceQuery => {
                self.reader_of(r)?;
            },
            Operation::BeginVerifiedSourceQuery => {
                self.reader_of(r)?;
            },
            Operation::EndVerifiedSourceQuery => {
                self.reader_of(r)?;
            },
            Operation::CloseSource => {
                self.reader_of(r)?;
                return Ok(Action::Done(op));
            },
            Operation::CompileSource => {
                self.needs(facts.need, Error::CompilerMemory)?;
                self.reader_of(r)?;
                let output = r.required("output")?;
            },
            Operation::MeasureOrderedSource => {
                check_ordered(r)?;
                self.needs(facts.need, Error::OrderedMemory)?;
                self.reader_of(r)?;
            },
            Operation::MeasureOrderedProfile => {
                let policy = r.required("numerical_policy")?;
                let view = r.required("view_id")?;
                if r.contains("access_class") && r.text("access_class").is_none() {
                    return Err(Error::AccessClass);
                }
            },
            Operation::MeasureHmPopulation => {
                self.needs(facts.need, Error::PopulationMemory)?;
                self.reader_of(r)?;
                if r.contains("expected_build_id") && !r.contains("index") {
                    return Err(Error::PopulationBuild);
                }
            },
            Operation::PrepareSource => {
                self.needs(BUILDER_RESERVE, Error::BuilderSessionMemory)?;
                self.reader_of(r)?;
                let index = r.required("index")?;
            },
            Operation::PrepareFile => {
                self.needs(BUILDER_RESERVE, Error::BuilderSessionMemory)?;
                let path = r.required("path")?;
                let index = r.required("index")?;
            },
            Operation::VerifySkv => {
                self.needs(VERIFY_WORKING_BYTES, Error::VerifyMemory)?;
            },
            Operation::RegisterIndex => {
                let id = r.required("id")?;
                self.may_retain(id.as_str())?;
                self.reader_of(r)?;
                let index = r.required("index")?;
            },
            Operation::IndexInfo => {
                let id = r.required("id")?;
                if !self.retains(id.as_str()) {
                    return Err(Error::UnknownIndex);
                }
            },
            Operation::CloseIndex => {
                let id = r.required("id")?;
                if !self.retains(id.as_str()) {
                    return Err(Error::UnknownIndex);
                }
                return Ok(Action::Done(op));
            },
            Operation::MeasureSource => {
                return self.decide_source(r, facts);
            },
            Operation::StartJob => {
                let id = r.required("id")?;
                self.check_start_job(id.as_str())?;
                if facts.exact {
                    check_exactextract_job(&facts.job)?;
                }
                return Ok(Action::Job { exact: facts.exact });
            },
            Operation::NextJob => {
                self.job_of(r)?;
            },
            Operation::JobInfo => {
                self.job_of(r)?;
            },
            Operation::CloseJob => {
                self.job_of(r)?;
                return Ok(Action::Done(op));
            },
            Operation::Open => {
                if self.sources.len() >= 128 {
                    return Err(Error::SourceCount);
                }
                let id = r.required("id")?;
                let within: usize = self.check_open(id.as_str())?;
                check_raster(&facts.units, facts.crs.as_str())?;
            },
            Operation::Close => {
                self.raster_of(r)?;
                return Ok(Action::Done(op));
            },
            Operation::Prepare => {
                return self.decide_prepare(r, facts);
            },
            Operation::Compile => {
                return self.decide_raster(op, r, facts);
            },
            Operation::Measure => {
                return self.decide_raster(op, r, facts);
            },
            Operation::DropPlan => {
                let id = r.required("plan")?;
                if !self.plans.contains(id.as_str()) {
                    return Err(Error::UnknownPlan);
                }
                return Ok(Action::Done(op));
            },
            Operation::RegisterFile => {
                let id = r.required("id")?;
                let path = r.required("path")?;
                self.check_register_file(id.as_str(), path.as_str())?;
            },
            Operation::CloseFile => {
                let id = r.required("source")?;
                if !self.files.contains(id.as_str()) {
                    return Err(Error::UnknownFile);
                }
                return Ok(Action::Done(op));
            },
            Operation::ConfigureFileCache => {
                let most: usize = if self.cache_limit < self.cache_bytes {
                    self.cache_bytes
                } else {
                    self.cache_limit
                };
                if facts.need as u128 > self.available() as u128 + most as u128 {
                    return Err(Error::CacheBudget);
                }
                return Ok(Action::Done(op));
            },
            Operation::ClearFileCache => {
                return Ok(Action::Done(op));
            },
            Operation::MeasureFile => {
                return self.decide_file(op, r, facts);
            },
            Operation::MeasureRegisteredFile => {
                return self.decide_file(op, r, facts);
            },
            Operation::Stats => {},
            Operation::Backends => {},
        }
        Ok(Action::Work(op))
    }

    /// Answer a request: check it, decide what it leads to, and keep the books where the session
    /// does it alone. A refused request changes nothing.
    #[verifier::rlimit(60)]
    pub fn call(&mut self, r: &Request, population: &str, facts: &Facts) -> (out: Result<
        Action,
        Error,
    >)
        requires
            old(self).wf(),
        ensures
            final(self).wf(),
            match request_refusal(*r, population@) {
                Some(e) => out == Err::<Action, Error>(e) && final(self)@ == old(self)@,
                None => {
                    let op = operation_of(r.text_of("op"@)->0)->0;
                    match decision(*old(self), op, *r, *facts) {
                        Err(e) => out == Err::<Action, Error>(e) && final(self)@ == old(self)@,
                        Ok(action) => out == Ok::<Action, Error>(action) && call_effect(
                            old(self)@,
                            final(self)@,
                            op,
                            *r,
                            *facts,
                        ),
                    }
                },
            },
    {
        let op: Operation = r.check(population)?;
        let action: Action = self.decide(op, r, facts)?;
        match op {
            Operation::CloseSource => {
                let id = r.required("source")?;
                self.close_source(id.as_str())?;
            },
            Operation::CloseIndex => {
                let id = r.required("id")?;
                self.close_index(id.as_str())?;
            },
            Operation::CloseJob => {
                let id = r.required("id")?;
                self.close_job(id.as_str())?;
            },
            Operation::CloseFile => {
                let id = r.required("source")?;
                self.close_file(id.as_str())?;
            },
            Operation::ConfigureFileCache => {
                self.configure_cache(facts.need)?;
            },
            Operation::ClearFileCache => {
                self.cache_bytes = 0;
            },
            Operation::Close => {
                let id = r.required("source")?;
                self.close(id.as_str())?;
            },
            Operation::DropPlan => {
                let id = r.required("plan")?;
                self.drop_plan(id.as_str())?;
            },
            _ => {},
        }
        Ok(action)
    }

    /// Take in an opened raster, with its units and its coordinate system.
    pub fn keep_raster(
        &mut self,
        id: String,
        bytes: usize,
        units: &Vec<Option<String>>,
        crs: &str,
    ) -> (r: Result<(), Error>)
        requires
            old(self).wf(),
            !keeps(old(self)@.sources, id@),
            old(self)@.sources.len() < 128,
        ensures
            final(self).wf(),
            match raster_refusal(units@, crs@) {
                Some(e) => r == Err::<(), Error>(e) && final(self)@ == old(self)@,
                None => if charged(old(self)@) + bytes + ENTRY_BYTES > old(self)@.max {
                    r == Err::<(), Error>(Error::SessionMemory) && final(self)@ == old(self)@
                } else {
                    r is Ok && final(self)@ == (Registered {
                        sources: old(self)@.sources.push((id@, bytes as int, plain())),
                        ..old(self)@
                    })
                },
            },
    {
        check_raster(units, crs)?;
        self.add_raster(id, bytes)
    }
}

/// The two files of the index that a request names, where what it leads to reads one: its summary
/// file, and its raw file where there is one.
pub open spec fn index_files(r: Request, action: Action) -> Option<(Seq<char>, Seq<char>)> {
    match r.text_of("index"@) {
        None => None,
        Some(index) => if action == Action::Source(SourceRoute::Indexed) {
            Some((summary_file(index), raw_file(index)))
        } else if action == Action::Work(Operation::RegisterIndex) {
            Some((summary_file(index), Seq::empty()))
        } else if action is File && action->route is Indexed {
            Some(query_files(index, r.text_of("raw_path"@)))
        } else {
            None
        },
    }
}

/// Find the files of an index that a request is answered from.
pub fn find_index_files(r: &Request, action: Action) -> (out: Option<(String, String)>)
    ensures
        match index_files(*r, action) {
            Some(files) => out matches Some(found) && (found.0@, found.1@) == files,
            None => out is None,
        },
{
    let index = match r.text("index") {
        Some(index) => index.as_str(),
        None => return None,
    };
    match action {
        Action::Source(SourceRoute::Indexed) => Some((summary_path(index), raw_path(index))),
        Action::Work(Operation::RegisterIndex) => Some((summary_path(index), String::new())),
        Action::File { route: FileRoute::Indexed { .. }, opened } => match r.text("raw_path") {
            Some(raw) => Some(file_paths(index, Some(raw.as_str()))),
            None => Some(file_paths(index, None)),
        },
        _ => None,
    }
}

/// A request that the session does not answer alone leaves it as it was.
pub proof fn only_kept_calls_change_a_session(
    session: Session,
    b: Registered,
    op: Operation,
    r: Request,
    facts: Facts,
)
    requires
        decision(session, op, r, facts) is Ok,
        !(decision(session, op, r, facts)->Ok_0 is Done),
        call_effect(session@, b, op, r, facts),
    ensures
        b == session@,
{
}

/// Check the units of a raster before it is kept.
pub fn check_raster_units(units: &Vec<Option<String>>) -> (r: Result<(), Error>)
    ensures
        r == (if units_kept(units@) {
            Ok::<(), Error>(())
        } else {
            Err(Error::UnitLength)
        }),
{
    let mut i: usize = 0;
    while i < units.len()
        invariant
            i <= units@.len(),
            forall|k: int|
                0 <= k < i && (#[trigger] units@[k]) is Some ==> utf8(units@[k]->0@).len()
                    <= MAX_UNIT_BYTES,
        decreases units@.len() - i,
    {
        if let Some(unit) = &units[i] {
            if byte_len(unit.as_str()) > MAX_UNIT_BYTES {
                assert(units@[i as int] is Some);
                return Err(Error::UnitLength);
            }
        }
        i += 1;
    }
    Ok(())
}

/// Check the coordinate system and the units of a raster before it is kept.
pub fn check_raster(units: &Vec<Option<String>>, crs: &str) -> (r: Result<(), Error>)
    ensures
        r == (match raster_refusal(units@, crs@) {
            Some(e) => Err::<(), Error>(e),
            None => Ok(()),
        }),
{
    if byte_len(crs) > MAX_CRS_BYTES {
        return Err(Error::GridShape);
    }
    check_raster_units(units)
}

} // verus!
