//! Where a checked request goes: which engine and which index answer it, and which of its options
//! contradict that.
use vstd::prelude::*;
use vstd::string::StringExecFns;

use crate::error::Error;
use crate::request::{Operation, Request};
use crate::text::{contains, ends_with, occurs, same, stands_at, utf8};

verus! {

/// A path that names an index file itself.
pub open spec fn names_file(index: Seq<char>) -> bool {
    ||| stands_at(utf8(index), utf8(".rsi"@), utf8(index).len() - utf8(".rsi"@).len())
    ||| occurs(utf8(index), utf8("://"@))
}

/// The summary file of an index: the path itself, or the file of a prepared directory.
pub open spec fn summary_file(index: Seq<char>) -> Seq<char> {
    if names_file(index) {
        index
    } else {
        index + "/summary.rsi"@
    }
}

pub fn summary_path(index: &str) -> (r: String)
    ensures
        r@ == summary_file(index@),
{
    let path = index.to_owned();
    if ends_with(index, ".rsi") || contains(index, "://") {
        path
    } else {
        path.concat("/summary.rsi")
    }
}

/// The raw file of an index: none where it is remote.
pub open spec fn raw_file(index: Seq<char>) -> Seq<char> {
    if occurs(utf8(index), utf8("://"@)) {
        Seq::empty()
    } else {
        index + "/pixels.rsr"@
    }
}

pub fn raw_path(index: &str) -> (r: String)
    ensures
        r@ == raw_file(index@),
{
    if contains(index, "://") {
        String::new()
    } else {
        index.to_owned().concat("/pixels.rsr")
    }
}

/// The two files of an index that a file query names: under a directory, or where they are
/// remote each by its own name. A raw file may be named in any case.
pub open spec fn query_files(index: Seq<char>, raw: Option<Seq<char>>) -> (Seq<char>, Seq<char>) {
    (
        if occurs(utf8(index), utf8("://"@)) {
            index
        } else {
            index + "/summary.rsi"@
        },
        match raw {
            Some(path) => path,
            None => raw_file(index),
        },
    )
}

pub fn file_paths(index: &str, raw: Option<&str>) -> (r: (String, String))
    ensures
        (r.0@, r.1@) == query_files(
            index@,
            match raw {
                Some(path) => Some(path@),
                None => None,
            },
        ),
{
    let summaries: String = if contains(index, "://") {
        index.to_owned()
    } else {
        index.to_owned().concat("/summary.rsi")
    };
    let pages: String = match raw {
        Some(path) => path.to_owned(),
        None => raw_path(index),
    };
    (summaries, pages)
}

/// What answers a query on a registered source.
#[derive(Clone, Copy, Debug, PartialEq, Eq, Structural)]
pub enum SourceRoute {
    Exactextract,
    Retained,
    Indexed,
    Direct,
}

pub open spec fn native_options(r: Request) -> bool {
    r.has("joint_planner"@) || r.has("expected_build_id"@) || r.has("read_memory_bytes"@) || r.has(
        "forbidden_raw_tiles"@,
    )
}

fn has_native_options(r: &Request) -> (b: bool)
    ensures
        b == native_options(*r),
{
    r.contains("joint_planner") || r.contains("expected_build_id") || r.contains(
        "read_memory_bytes",
    ) || r.contains("forbidden_raw_tiles")
}

/// Where a query on a registered source goes. `exact` says that exact extraction was chosen.
pub open spec fn source_route(r: Request, exact: bool) -> Result<SourceRoute, Error> {
    if exact {
        if native_options(r) || r.has("mode"@) || r.has("strategy"@) || r.has("use_index"@) {
            Err(Error::ExactextractOptions)
        } else {
            Ok(SourceRoute::Exactextract)
        }
    } else if !r.has("index"@) && !r.has("index_handle"@) && native_options(r) {
        Err(Error::PersistentOptions)
    } else if r.text_of("index_handle"@) is Some {
        if r.has("index"@) || r.has("expected_build_id"@) || r.has("read_memory_bytes"@) || r.has(
            "joint_planner"@,
        ) {
            Err(Error::RetainedConflict)
        } else {
            Ok(SourceRoute::Retained)
        }
    } else if r.text_of("index"@) is Some {
        Ok(SourceRoute::Indexed)
    } else {
        Ok(SourceRoute::Direct)
    }
}

pub fn route_source(r: &Request, exact: bool) -> (out: Result<SourceRoute, Error>)
    ensures
        out == source_route(*r, exact),
{
    if exact {
        if has_native_options(r) || r.contains("mode") || r.contains("strategy") || r.contains(
            "use_index",
        ) {
            return Err(Error::ExactextractOptions);
        }
        return Ok(SourceRoute::Exactextract);
    }
    if !r.contains("index") && !r.contains("index_handle") && has_native_options(r) {
        return Err(Error::PersistentOptions);
    }
    if r.text("index_handle").is_some() {
        if r.contains("index") || r.contains("expected_build_id") || r.contains("read_memory_bytes")
            || r.contains("joint_planner") {
            return Err(Error::RetainedConflict);
        }
        return Ok(SourceRoute::Retained);
    }
    if r.text("index").is_some() {
        Ok(SourceRoute::Indexed)
    } else {
        Ok(SourceRoute::Direct)
    }
}

/// What answers a query on a file.
#[derive(Clone, Copy, Debug, PartialEq, Eq)]
pub enum FileRoute {
    /// A persistent index, by raw leaves alone, or by a traversal that was asked for.
    Indexed { force_direct: bool, hierarchy: Option<bool> },
    Registered,
    Path,
}

pub open spec fn backend_of(r: Request) -> Seq<char> {
    match r.text_of("backend"@) {
        Some(name) => name,
        None => "auto"@,
    }
}

pub open spec fn index_options(r: Request) -> bool {
    r.has("raw_path"@) || r.has("expected_build_id"@) || r.has("read_memory_bytes"@) || r.has(
        "summary_page_bytes"@,
    ) || r.has("coalesce_raw"@) || r.has("order_summaries"@) || r.has("joint_planner"@) || r.has(
        "forbidden_raw_tiles"@,
    ) || r.has("backend"@)
}

/// Where a query on a file goes.
pub open spec fn file_route(r: Request, op: Operation) -> Result<FileRoute, Error> {
    if r.has("index"@) {
        let name = backend_of(r);
        if op != Operation::MeasureFile || r.has("source"@) {
            Err(Error::IndexedFile)
        } else if name == "auto"@ {
            Ok(FileRoute::Indexed { force_direct: false, hierarchy: None })
        } else if name == "persistent_flat"@ {
            Ok(FileRoute::Indexed { force_direct: false, hierarchy: Some(false) })
        } else if name == "persistent_hierarchy"@ {
            Ok(FileRoute::Indexed { force_direct: false, hierarchy: Some(true) })
        } else if name == "direct"@ {
            Ok(FileRoute::Indexed { force_direct: true, hierarchy: None })
        } else {
            Err(Error::PersistentBackend)
        }
    } else if index_options(r) {
        Err(Error::PersistentOptions)
    } else if op == Operation::MeasureRegisteredFile {
        if r.has("path"@) {
            Err(Error::RegisteredPath)
        } else {
            Ok(FileRoute::Registered)
        }
    } else if r.has("source"@) {
        Err(Error::PathSource)
    } else {
        Ok(FileRoute::Path)
    }
}

pub fn route_file(r: &Request, op: Operation) -> (out: Result<FileRoute, Error>)
    ensures
        out == file_route(*r, op),
{
    let registered = match op {
        Operation::MeasureRegisteredFile => true,
        _ => false,
    };
    if r.contains("index") {
        let plain = match op {
            Operation::MeasureFile => true,
            _ => false,
        };
        if !plain || r.contains("source") {
            return Err(Error::IndexedFile);
        }
        return match r.text("backend") {
            None => Ok(FileRoute::Indexed { force_direct: false, hierarchy: None }),
            Some(name) => {
                let name = name.as_str();
                if same(name, "auto") {
                    Ok(FileRoute::Indexed { force_direct: false, hierarchy: None })
                } else if same(name, "persistent_flat") {
                    Ok(FileRoute::Indexed { force_direct: false, hierarchy: Some(false) })
                } else if same(name, "persistent_hierarchy") {
                    Ok(FileRoute::Indexed { force_direct: false, hierarchy: Some(true) })
                } else if same(name, "direct") {
                    Ok(FileRoute::Indexed { force_direct: true, hierarchy: None })
                } else {
                    Err(Error::PersistentBackend)
                }
            },
        };
    }
    if r.contains("raw_path") || r.contains("expected_build_id") || r.contains("read_memory_bytes")
        || r.contains("summary_page_bytes") || r.contains("coalesce_raw") || r.contains(
        "order_summaries",
    ) || r.contains("joint_planner") || r.contains("forbidden_raw_tiles") || r.contains("backend") {
        return Err(Error::PersistentOptions);
    }
    if registered {
        if r.contains("path") {
            return Err(Error::RegisteredPath);
        }
        return Ok(FileRoute::Registered);
    }
    if r.contains("source") {
        return Err(Error::PathSource);
    }
    Ok(FileRoute::Path)
}

/// What answers a query on a resident raster.
#[derive(Clone, Copy, Debug, PartialEq, Eq, Structural)]
pub enum Backend {
    Auto,
    Direct,
    RowBlocks,
    Hierarchy,
    CumulativeFull,
    CumulativeBlocked,
}

/// The backend of a name. The native engine chooses by itself.
pub open spec fn backend_named(name: Seq<char>) -> Option<Backend> {
    if name == "auto"@ || name == "native"@ {
        Some(Backend::Auto)
    } else if name == "direct"@ {
        Some(Backend::Direct)
    } else if name == "row_blocks"@ {
        Some(Backend::RowBlocks)
    } else if name == "hierarchy"@ {
        Some(Backend::Hierarchy)
    } else if name == "cumulative_full"@ {
        Some(Backend::CumulativeFull)
    } else if name == "cumulative_blocked"@ {
        Some(Backend::CumulativeBlocked)
    } else {
        None
    }
}

pub fn find_backend(name: &str) -> (r: Option<Backend>)
    ensures
        r == backend_named(name@),
{
    if same(name, "auto") || same(name, "native") {
        Some(Backend::Auto)
    } else if same(name, "direct") {
        Some(Backend::Direct)
    } else if same(name, "row_blocks") {
        Some(Backend::RowBlocks)
    } else if same(name, "hierarchy") {
        Some(Backend::Hierarchy)
    } else if same(name, "cumulative_full") {
        Some(Backend::CumulativeFull)
    } else if same(name, "cumulative_blocked") {
        Some(Backend::CumulativeBlocked)
    } else {
        None
    }
}

/// The policy that an ordered measurement must name, and nothing else.
pub const ORDERED_POLICY: &'static str = "hm_demographics_ordered_v1";

/// Why an ordered measurement is not one, if it is not.
pub open spec fn ordered_refusal(r: Request) -> Option<Error> {
    if r.text_of("numerical_policy"@) != Some(ORDERED_POLICY@) {
        Some(Error::OrderedPolicy)
    } else if r.has("mode"@) {
        Some(Error::OrderedMode)
    } else {
        None
    }
}

pub fn check_ordered(r: &Request) -> (out: Result<(), Error>)
    ensures
        out == (match ordered_refusal(*r) {
            Some(e) => Err::<(), Error>(e),
            None => Ok(()),
        }),
{
    let named = match r.text("numerical_policy") {
        Some(name) => same(name.as_str(), ORDERED_POLICY),
        None => false,
    };
    if !named {
        return Err(Error::OrderedPolicy);
    }
    if r.contains("mode") {
        return Err(Error::OrderedMode);
    }
    Ok(())
}

/// The backend that a raster is prepared for.
pub open spec fn preparation(r: Request) -> Result<Backend, Error> {
    let name = match r.text_of("backend"@) {
        Some(name) => name,
        None => "row_blocks"@,
    };
    match backend_named(name) {
        Some(b) => if b == Backend::Auto || b == Backend::Direct {
            Err(Error::PreparationBackend)
        } else {
            Ok(b)
        },
        None => Err(Error::PreparationBackend),
    }
}

pub fn check_prepare(r: &Request) -> (out: Result<Backend, Error>)
    ensures
        out == preparation(*r),
{
    let found = match r.text("backend") {
        Some(name) => find_backend(name.as_str()),
        None => find_backend("row_blocks"),
    };
    match found {
        Some(Backend::Auto) => Err(Error::PreparationBackend),
        Some(Backend::Direct) => Err(Error::PreparationBackend),
        Some(b) => Ok(b),
        None => Err(Error::PreparationBackend),
    }
}

/// A query on an opened raster that another engine answers takes its geometry as it is.
pub open spec fn extraction_refusal(r: Request, measures: bool) -> Option<Error> {
    if !measures || r.has("plan"@) || r.has("strategy"@) || r.has("use_index"@) || r.has("mode"@) {
        Some(Error::ExactextractPlan)
    } else {
        None
    }
}

pub fn check_exactextract(r: &Request, measures: bool) -> (out: Result<(), Error>)
    ensures
        out == (match extraction_refusal(*r, measures) {
            Some(e) => Err::<(), Error>(e),
            None => Ok(()),
        }),
{
    if !measures || r.contains("plan") || r.contains("strategy") || r.contains("use_index")
        || r.contains("mode") {
        Err(Error::ExactextractPlan)
    } else {
        Ok(())
    }
}

/// A job that another engine runs has no native schedule.
pub open spec fn extraction_job_refusal(job: Request) -> Option<Error> {
    if job.has("schedule"@) || job.has("geometry_layout"@) || job.has("window_policy"@) || job.has(
        "tile_edge"@,
    ) {
        Some(Error::ExactextractJob)
    } else {
        None
    }
}

pub fn check_exactextract_job(job: &Request) -> (out: Result<(), Error>)
    ensures
        out == (match extraction_job_refusal(*job) {
            Some(e) => Err::<(), Error>(e),
            None => Ok(()),
        }),
{
    if job.contains("schedule") || job.contains("geometry_layout") || job.contains("window_policy")
        || job.contains("tile_edge") {
        Err(Error::ExactextractJob)
    } else {
        Ok(())
    }
}

/// A statistic that an additive field holds.
pub open spec fn additive(name: Seq<char>) -> bool {
    name == "sum"@ || name == "support"@ || name == "mean"@
}

/// Whether a cumulative field can answer: additive statistics that were asked for by name, over
/// a geometry and not a plan. Everything else falls back to scanline reductions.
pub open spec fn serves_cumulatively(statistics: Option<Vec<String>>, plan: bool) -> bool {
    statistics is Some && !plan && forall|i: int|
        0 <= i < statistics->0@.len() ==> additive((#[trigger] statistics->0@[i])@)
}

pub fn cumulative_serves(statistics: &Option<Vec<String>>, plan: bool) -> (r: bool)
    ensures
        r == serves_cumulatively(*statistics, plan),
{
    match statistics {
        None => false,
        Some(names) => {
            if plan {
                return false;
            }
            let mut i: usize = 0;
            while i < names.len()
                invariant
                    i <= names@.len(),
                    statistics is Some && statistics->0@ == names@,
                    forall|k: int| 0 <= k < i ==> additive((#[trigger] names@[k])@),
                decreases names@.len() - i,
            {
                let name = names[i].as_str();
                if !(same(name, "sum") || same(name, "support") || same(name, "mean")) {
                    assert(!additive(names@[i as int]@));
                    return false;
                }
                i += 1;
            }
            true
        },
    }
}

/// How an opened raster is reduced: with its prepared row blocks or without.
#[derive(Clone, Copy, Debug, PartialEq, Eq, Structural)]
pub enum Reduction {
    RowBlocks,
    Raw,
}

/// The reduction of a query on an opened raster. Row blocks that were asked for must be there and
/// not be switched off; otherwise they are used where they are there, fit the statistics and are
/// not passed over.
pub open spec fn reduction_of(
    backend: Backend,
    use_index: Option<bool>,
    indexed: bool,
    eligible: bool,
) -> Result<Reduction, Error> {
    if backend == Backend::RowBlocks && !(indexed && use_index != Some(false)) {
        Err(Error::RowBlocksIndex)
    } else if use_index == Some(false) || backend == Backend::Direct || !eligible || !indexed {
        Ok(Reduction::Raw)
    } else {
        Ok(Reduction::RowBlocks)
    }
}

pub fn choose_reduction(
    backend: Backend,
    use_index: Option<bool>,
    indexed: bool,
    eligible: bool,
) -> (out: Result<Reduction, Error>)
    ensures
        out == reduction_of(backend, use_index, indexed, eligible),
{
    let off: bool = match use_index {
        Some(b) => !b,
        None => false,
    };
    if backend == Backend::RowBlocks && (!indexed || off) {
        return Err(Error::RowBlocksIndex);
    }
    if off || backend == Backend::Direct || !eligible || !indexed {
        Ok(Reduction::Raw)
    } else {
        Ok(Reduction::RowBlocks)
    }
}

/// The name of a strategy in an answer.
pub fn strategy_name(strategy: &str, reduction: Reduction) -> (r: String)
    ensures
        r@ == (if strategy@ == "scanline"@ && reduction == Reduction::RowBlocks {
            "scanline_blocked"@
        } else {
            strategy@
        }),
{
    if same(strategy, "scanline") && reduction == Reduction::RowBlocks {
        "scanline_blocked".to_owned()
    } else {
        strategy.to_owned()
    }
}

} // verus!
