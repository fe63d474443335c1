//! The request boundary: which operations there are, which fields each takes, and what a field
//! must hold. Unsupported options are not ignored.
use vstd::prelude::*;

use crate::error::Error;
use crate::text::{byte_len, same, utf8};

verus! {

/// What a request asks for.
#[derive(Clone, Copy, Debug, PartialEq, Eq, Structural)]
pub enum Operation {
    RegisterSource,
    SourceInfo,
    SourceMetrics,
    BeginSourceQuery,
    CloseSource,
    BeginVerifiedSourceQuery,
    EndVerifiedSourceQuery,
    CompileSource,
    MeasureOrderedSource,
    MeasureOrderedProfile,
    VerifySkv,
    RegisterIndex,
    IndexInfo,
    CloseIndex,
    MeasureHmPopulation,
    PrepareSource,
    MeasureSource,
    StartJob,
    NextJob,
    JobInfo,
    CloseJob,
    Open,
    Close,
    Prepare,
    PrepareFile,
    DropPlan,
    Stats,
    Backends,
    RegisterFile,
    CloseFile,
    ConfigureFileCache,
    ClearFileCache,
    Compile,
    Measure,
    MeasureFile,
    MeasureRegisteredFile,
}

/// The operation of a name.
pub open spec fn operation_of(name: Seq<char>) -> Option<Operation> {
    if name == "register_source"@ {
        Some(Operation::RegisterSource)
    } else if name == "source_info"@ {
        Some(Operation::SourceInfo)
    } else if name == "source_metrics"@ {
        Some(Operation::SourceMetrics)
    } else if name == "begin_source_query"@ {
        Some(Operation::BeginSourceQuery)
    } else if name == "close_source"@ {
        Some(Operation::CloseSource)
    } else if name == "begin_verified_source_query"@ {
        Some(Operation::BeginVerifiedSourceQuery)
    } else if name == "end_verified_source_query"@ {
        Some(Operation::EndVerifiedSourceQuery)
    } else if name == "compile_source"@ {
        Some(Operation::CompileSource)
    } else if name == "measure_ordered_source"@ {
        Some(Operation::MeasureOrderedSource)
    } else if name == "measure_ordered_profile"@ {
        Some(Operation::MeasureOrderedProfile)
    } else if name == "verify_skv"@ {
        Some(Operation::VerifySkv)
    } else if name == "register_index"@ {
        Some(Operation::RegisterIndex)
    } else if name == "index_info"@ {
        Some(Operation::IndexInfo)
    } else if name == "close_index"@ {
        Some(Operation::CloseIndex)
    } else if name == "measure_hm_population"@ {
        Some(Operation::MeasureHmPopulation)
    } else if name == "prepare_source"@ {
        Some(Operation::PrepareSource)
    } else if name == "measure_source"@ {
        Some(Operation::MeasureSource)
    } else if name == "start_job"@ {
        Some(Operation::StartJob)
    } else if name == "next_job"@ {
        Some(Operation::NextJob)
    } else if name == "job_info"@ {
        Some(Operation::JobInfo)
    } else if name == "close_job"@ {
        Some(Operation::CloseJob)
    } else if name == "open"@ {
        Some(Operation::Open)
    } else if name == "close"@ {
        Some(Operation::Close)
    } else if name == "prepare"@ {
        Some(Operation::Prepare)
    } else if name == "prepare_file"@ {
        Some(Operation::PrepareFile)
    } else if name == "drop_plan"@ {
        Some(Operation::DropPlan)
    } else if name == "stats"@ {
        Some(Operation::Stats)
    } else if name == "backends"@ {
        Some(Operation::Backends)
    } else if name == "register_file"@ {
        Some(Operation::RegisterFile)
    } else if name == "close_file"@ {
        Some(Operation::CloseFile)
    } else if name == "configure_file_cache"@ {
        Some(Operation::ConfigureFileCache)
    } else if name == "clear_file_cache"@ {
        Some(Operation::ClearFileCache)
    } else if name == "compile"@ {
        Some(Operation::Compile)
    } else if name == "measure"@ {
        Some(Operation::Measure)
    } else if name == "measure_file"@ {
        Some(Operation::MeasureFile)
    } else if name == "measure_registered_file"@ {
        Some(Operation::MeasureRegisteredFile)
    } else {
        None
    }
}

fn find_operation(name: &str) -> (r: Option<Operation>)
    ensures
        r == operation_of(name@),
{
    if same(name, "register_source") {
        Some(Operation::RegisterSource)
    } else if same(name, "source_info") {
        Some(Operation::SourceInfo)
    } else if same(name, "source_metrics") {
        Some(Operation::SourceMetrics)
    } else if same(name, "begin_source_query") {
        Some(Operation::BeginSourceQuery)
    } else if same(name, "close_source") {
        Some(Operation::CloseSource)
    } else if same(name, "begin_verified_source_query") {
        Some(Operation::BeginVerifiedSourceQuery)
    } else if same(name, "end_verified_source_query") {
        Some(Operation::EndVerifiedSourceQuery)
    } else if same(name, "compile_source") {
        Some(Operation::CompileSource)
    } else if same(name, "measure_ordered_source") {
        Some(Operation::MeasureOrderedSource)
    } else if same(name, "measure_ordered_profile") {
        Some(Operation::MeasureOrderedProfile)
    } else if same(name, "verify_skv") {
        Some(Operation::VerifySkv)
    } else if same(name, "register_index") {
        Some(Operation::RegisterIndex)
    } else if same(name, "index_info") {
        Some(Operation::IndexInfo)
    } else if same(name, "close_index") {
        Some(Operation::CloseIndex)
    } else if same(name, "measure_hm_population") {
        Some(Operation::MeasureHmPopulation)
    } else if same(name, "prepare_source") {
        Some(Operation::PrepareSource)
    } else if same(name, "measure_source") {
        Some(Operation::MeasureSource)
    } else if same(name, "start_job") {
        Some(Operation::StartJob)
    } else if same(name, "next_job") {
        Some(Operation::NextJob)
    } else if same(name, "job_info") {
        Some(Operation::JobInfo)
    } else if same(name, "close_job") {
        Some(Operation::CloseJob)
    } else if same(name, "open") {
        Some(Operation::Open)
    } else if same(name, "close") {
        Some(Operation::Close)
    } else if same(name, "prepare") {
        Some(Operation::Prepare)
    } else if same(name, "prepare_file") {
        Some(Operation::PrepareFile)
    } else if same(name, "drop_plan") {
        Some(Operation::DropPlan)
    } else if same(name, "stats") {
        Some(Operation::Stats)
    } else if same(name, "backends") {
        Some(Operation::Backends)
    } else if same(name, "register_file") {
        Some(Operation::RegisterFile)
    } else if same(name, "close_file") {
        Some(Operation::CloseFile)
    } else if same(name, "configure_file_cache") {
        Some(Operation::ConfigureFileCache)
    } else if same(name, "clear_file_cache") {
        Some(Operation::ClearFileCache)
    } else if same(name, "compile") {
        Some(Operation::Compile)
    } else if same(name, "measure") {
        Some(Operation::Measure)
    } else if same(name, "measure_file") {
        Some(Operation::MeasureFile)
    } else if same(name, "measure_registered_file") {
        Some(Operation::MeasureRegisteredFile)
    } else {
        None
    }
}

/// A field of `register_source`.
pub open spec fn takes_register_source(name: Seq<char>) -> bool {
    ||| name == "op"@
    ||| name == "id"@
    ||| name == "spec"@
}

fn is_takes_register_source(name: &str) -> (r: bool)
    ensures
        r == takes_register_source(name@),
{
    same(name, "op") || same(name, "id") || same(name, "spec")
}

/// A field of `source_info`, `source_metrics`, `begin_source_query`, `close_source`, `end_verified_source_query`, `close`, `close_file`.
pub open spec fn takes_source_info(name: Seq<char>) -> bool {
    ||| name == "op"@
    ||| name == "source"@
}

fn is_takes_source_info(name: &str) -> (r: bool)
    ensures
        r == takes_source_info(name@),
{
    same(name, "op") || same(name, "source")
}

/// A field of `begin_verified_source_query`.
pub open spec fn takes_begin_verified_source_query(name: Seq<char>) -> bool {
    ||| name == "op"@
    ||| name == "source"@
    ||| name == "renew_budget"@
}

fn is_takes_begin_verified_source_query(name: &str) -> (r: bool)
    ensures
        r == takes_begin_verified_source_query(name@),
{
    same(name, "op") || same(name, "source") || same(name, "renew_budget")
}

/// A field of `compile_source`.
pub open spec fn takes_compile_source(name: Seq<char>) -> bool {
    ||| name == "op"@
    ||| name == "source"@
    ||| name == "output"@
    ||| name == "options"@
}

fn is_takes_compile_source(name: &str) -> (r: bool)
    ensures
        r == takes_compile_source(name@),
{
    same(name, "op") || same(name, "source") || same(name, "output") || same(name, "options")
}

/// A field of `measure_ordered_source`.
pub open spec fn takes_measure_ordered_source(name: Seq<char>) -> bool {
    ||| name == "op"@
    ||| name == "source"@
    ||| name == "request"@
    ||| name == "numerical_policy"@
}

fn is_takes_measure_ordered_source(name: &str) -> (r: bool)
    ensures
        r == takes_measure_ordered_source(name@),
{
    same(name, "op") || same(name, "source") || same(name, "request") || same(name, "numerical_policy")
}

/// A field of `measure_ordered_profile`.
pub open spec fn takes_measure_ordered_profile(name: Seq<char>) -> bool {
    ||| name == "op"@
    ||| name == "profile"@
    ||| name == "request"@
    ||| name == "numerical_policy"@
    ||| name == "view_id"@
    ||| name == "access_class"@
}

fn is_takes_measure_ordered_profile(name: &str) -> (r: bool)
    ensures
        r == takes_measure_ordered_profile(name@),
{
    same(name, "op") || same(name, "profile") || same(name, "request") || same(name, "numerical_policy") || same(name, "view_id") || same(name, "access_class")
}

/// A field of `verify_skv`.
pub open spec fn takes_verify_skv(name: Seq<char>) -> bool {
    ||| name == "op"@
    ||| name == "spec"@
}

fn is_takes_verify_skv(name: &str) -> (r: bool)
    ensures
        r == takes_verify_skv(name@),
{
    same(name, "op") || same(name, "spec")
}

/// A field of `register_index`.
pub open spec fn takes_register_index(name: Seq<char>) -> bool {
    ||| name == "op"@
    ||| name == "id"@
    ||| name == "source"@
    ||| name == "index"@
    ||| name == "expected_build_id"@
    ||| name == "read_memory_bytes"@
}

fn is_takes_register_index(name: &str) -> (r: bool)
    ensures
        r == takes_register_index(name@),
{
    same(name, "op") || same(name, "id") || same(name, "source") || same(name, "index") || same(name, "expected_build_id") || same(name, "read_memory_bytes")
}

/// A field of `index_info`, `close_index`, `job_info`, `close_job`.
pub open spec fn takes_index_info(name: Seq<char>) -> bool {
    ||| name == "op"@
    ||| name == "id"@
}

fn is_takes_index_info(name: &str) -> (r: bool)
    ensures
        r == takes_index_info(name@),
{
    same(name, "op") || same(name, "id")
}

/// A field of `measure_hm_population`.
pub open spec fn takes_measure_hm_population(name: Seq<char>) -> bool {
    ||| name == "op"@
    ||| name == "source"@
    ||| name == "geometry"@
    ||| name == "index"@
    ||| name == "expected_build_id"@
    ||| name == "read_memory_bytes"@
}

fn is_takes_measure_hm_population(name: &str) -> (r: bool)
    ensures
        r == takes_measure_hm_population(name@),
{
    same(name, "op") || same(name, "source") || same(name, "geometry") || same(name, "index") || same(name, "expected_build_id") || same(name, "read_memory_bytes")
}

/// A field of `prepare_source`.
pub open spec fn takes_prepare_source(name: Seq<char>) -> bool {
    ||| name == "op"@
    ||| name == "source"@
    ||| name == "index"@
    ||| name == "tile_edge"@
    ||| name == "layout"@
    ||| name == "summary_backend"@
    ||| name == "boundary_source"@
}

fn is_takes_prepare_source(name: &str) -> (r: bool)
    ensures
        r == takes_prepare_source(name@),
{
    same(name, "op") || same(name, "source") || same(name, "index") || same(name, "tile_edge") || same(name, "layout") || same(name, "summary_backend") || same(name, "boundary_source")
}

/// A field of `measure_source`.
pub open spec fn takes_measure_source(name: Seq<char>) -> bool {
    ||| name == "op"@
    ||| name == "source"@
    ||| name == "geometry"@
    ||| name == "crs"@
    ||| name == "bands"@
    ||| name == "histogram_edges"@
    ||| name == "weight_band"@
    ||| name == "statistics"@
    ||| name == "category_values"@
    ||| name == "quantiles"@
    ||| name == "quantile_max_samples"@
    ||| name == "index"@
    ||| name == "index_handle"@
    ||| name == "expected_build_id"@
    ||| name == "read_memory_bytes"@
    ||| name == "forbidden_raw_tiles"@
    ||| name == "joint_planner"@
    ||| name == "backend"@
    ||| name == "numerical_policy"@
    ||| name == "accepted_policies"@
    ||| name == "execution_envelope"@
    ||| name == "backend_options"@
}

fn is_takes_measure_source(name: &str) -> (r: bool)
    ensures
        r == takes_measure_source(name@),
{
    same(name, "op") || same(name, "source") || same(name, "geometry") || same(name, "crs") || same(name, "bands") || same(name, "histogram_edges") || same(name, "weight_band") || same(name, "statistics") || same(name, "category_values") || same(name, "quantiles") || same(name, "quantile_max_samples") || same(name, "index") || same(name, "index_handle") || same(name, "expected_build_id") || same(name, "read_memory_bytes") || same(name, "forbidden_raw_tiles") || same(name, "joint_planner") || same(name, "backend") || same(name, "numerical_policy") || same(name, "accepted_policies") || same(name, "execution_envelope") || same(name, "backend_options")
}

/// A field of `start_job`.
pub open spec fn takes_start_job(name: Seq<char>) -> bool {
    ||| name == "op"@
    ||| name == "id"@
    ||| name == "job"@
    ||| name == "checkpoint"@
}

fn is_takes_start_job(name: &str) -> (r: bool)
    ensures
        r == takes_start_job(name@),
{
    same(name, "op") || same(name, "id") || same(name, "job") || same(name, "checkpoint")
}

/// A field of `next_job`.
pub open spec fn takes_next_job(name: Seq<char>) -> bool {
    ||| name == "op"@
    ||| name == "id"@
    ||| name == "max_rows"@
    ||| name == "include_checkpoint"@
}

fn is_takes_next_job(name: &str) -> (r: bool)
    ensures
        r == takes_next_job(name@),
{
    same(name, "op") || same(name, "id") || same(name, "max_rows") || same(name, "include_checkpoint")
}

/// A field of `open`.
pub open spec fn takes_open(name: Seq<char>) -> bool {
    ||| name == "op"@
    ||| name == "id"@
    ||| name == "raster"@
    ||| name == "path"@
}

fn is_takes_open(name: &str) -> (r: bool)
    ensures
        r == takes_open(name@),
{
    same(name, "op") || same(name, "id") || same(name, "raster") || same(name, "path")
}

/// A field of `prepare`.
pub open spec fn takes_prepare(name: Seq<char>) -> bool {
    ||| name == "op"@
    ||| name == "source"@
    ||| name == "backend"@
    ||| name == "tile_edge"@
    ||| name == "columns"@
    ||| name == "bands"@
}

fn is_takes_prepare(name: &str) -> (r: bool)
    ensures
        r == takes_prepare(name@),
{
    same(name, "op") || same(name, "source") || same(name, "backend") || same(name, "tile_edge") || same(name, "columns") || same(name, "bands")
}

/// A field of `prepare_file`.
pub open spec fn takes_prepare_file(name: Seq<char>) -> bool {
    ||| name == "op"@
    ||| name == "path"@
    ||| name == "index"@
    ||| name == "tile_edge"@
    ||| name == "layout"@
    ||| name == "summary_backend"@
    ||| name == "boundary_source"@
}

fn is_takes_prepare_file(name: &str) -> (r: bool)
    ensures
        r == takes_prepare_file(name@),
{
    same(name, "op") || same(name, "path") || same(name, "index") || same(name, "tile_edge") || same(name, "layout") || same(name, "summary_backend") || same(name, "boundary_source")
}

/// A field of `drop_plan`.
pub open spec fn takes_drop_plan(name: Seq<char>) -> bool {
    ||| name == "op"@
    ||| name == "plan"@
}

fn is_takes_drop_plan(name: &str) -> (r: bool)
    ensures
        r == takes_drop_plan(name@),
{
    same(name, "op") || same(name, "plan")
}

/// A field of `stats`, `backends`, `clear_file_cache`.
pub open spec fn takes_stats(name: Seq<char>) -> bool {
    ||| name == "op"@
}

fn is_takes_stats(name: &str) -> (r: bool)
    ensures
        r == takes_stats(name@),
{
    same(name, "op")
}

/// A field of `register_file`.
pub open spec fn takes_register_file(name: Seq<char>) -> bool {
    ||| name == "op"@
    ||| name == "id"@
    ||| name == "path"@
}

fn is_takes_register_file(name: &str) -> (r: bool)
    ensures
        r == takes_register_file(name@),
{
    same(name, "op") || same(name, "id") || same(name, "path")
}

/// A field of `configure_file_cache`.
pub open spec fn takes_configure_file_cache(name: Seq<char>) -> bool {
    ||| name == "op"@
    ||| name == "bytes"@
}

fn is_takes_configure_file_cache(name: &str) -> (r: bool)
    ensures
        r == takes_configure_file_cache(name@),
{
    same(name, "op") || same(name, "bytes")
}

/// A field of `compile`.
pub open spec fn takes_compile(name: Seq<char>) -> bool {
    ||| name == "op"@
    ||| name == "source"@
    ||| name == "id"@
    ||| name == "geometry"@
    ||| name == "crs"@
    ||| name == "strategy"@
    ||| name == "debug_cells"@
}

fn is_takes_compile(name: &str) -> (r: bool)
    ensures
        r == takes_compile(name@),
{
    same(name, "op") || same(name, "source") || same(name, "id") || same(name, "geometry") || same(name, "crs") || same(name, "strategy") || same(name, "debug_cells")
}

/// A field of `measure`.
pub open spec fn takes_measure(name: Seq<char>) -> bool {
    ||| name == "op"@
    ||| name == "source"@
    ||| name == "plan"@
    ||| name == "geometry"@
    ||| name == "crs"@
    ||| name == "strategy"@
    ||| name == "bands"@
    ||| name == "histogram_edges"@
    ||| name == "weight_band"@
    ||| name == "use_index"@
    ||| name == "statistics"@
    ||| name == "category_values"@
    ||| name == "quantiles"@
    ||| name == "quantile_max_samples"@
    ||| name == "backend"@
    ||| name == "numerical_policy"@
    ||| name == "accepted_policies"@
    ||| name == "execution_envelope"@
    ||| name == "backend_options"@
}

fn is_takes_measure(name: &str) -> (r: bool)
    ensures
        r == takes_measure(name@),
{
    same(name, "op") || same(name, "source") || same(name, "plan") || same(name, "geometry") || same(name, "crs") || same(name, "strategy") || same(name, "bands") || same(name, "histogram_edges") || same(name, "weight_band") || same(name, "use_index") || same(name, "statistics") || same(name, "category_values") || same(name, "quantiles") || same(name, "quantile_max_samples") || same(name, "backend") || same(name, "numerical_policy") || same(name, "accepted_policies") || same(name, "execution_envelope") || same(name, "backend_options")
}

/// A field of `measure_file`, `measure_registered_file`.
pub open spec fn takes_measure_file(name: Seq<char>) -> bool {
    ||| name == "op"@
    ||| name == "path"@
    ||| name == "source"@
    ||| name == "geometry"@
    ||| name == "crs"@
    ||| name == "bands"@
    ||| name == "histogram_edges"@
    ||| name == "weight_band"@
    ||| name == "statistics"@
    ||| name == "category_values"@
    ||| name == "quantiles"@
    ||| name == "quantile_max_samples"@
    ||| name == "index"@
    ||| name == "raw_path"@
    ||| name == "expected_build_id"@
    ||| name == "read_memory_bytes"@
    ||| name == "summary_page_bytes"@
    ||| name == "coalesce_raw"@
    ||| name == "order_summaries"@
    ||| name == "joint_planner"@
    ||| name == "forbidden_raw_tiles"@
    ||| name == "backend"@
}

fn is_takes_measure_file(name: &str) -> (r: bool)
    ensures
        r == takes_measure_file(name@),
{
    same(name, "op") || same(name, "path") || same(name, "source") || same(name, "geometry") || same(name, "crs") || same(name, "bands") || same(name, "histogram_edges") || same(name, "weight_band") || same(name, "statistics") || same(name, "category_values") || same(name, "quantiles") || same(name, "quantile_max_samples") || same(name, "index") || same(name, "raw_path") || same(name, "expected_build_id") || same(name, "read_memory_bytes") || same(name, "summary_page_bytes") || same(name, "coalesce_raw") || same(name, "order_summaries") || same(name, "joint_planner") || same(name, "forbidden_raw_tiles") || same(name, "backend")
}

/// An operation takes a field of a name.
pub open spec fn takes(op: Operation, name: Seq<char>) -> bool {
    match op {
        Operation::RegisterSource => takes_register_source(name),
        Operation::SourceInfo => takes_source_info(name),
        Operation::SourceMetrics => takes_source_info(name),
        Operation::BeginSourceQuery => takes_source_info(name),
        Operation::CloseSource => takes_source_info(name),
        Operation::BeginVerifiedSourceQuery => takes_begin_verified_source_query(name),
        Operation::EndVerifiedSourceQuery => takes_source_info(name),
        Operation::CompileSource => takes_compile_source(name),
        Operation::MeasureOrderedSource => takes_measure_ordered_source(name),
        Operation::MeasureOrderedProfile => takes_measure_ordered_profile(name),
        Operation::VerifySkv => takes_verify_skv(name),
        Operation::RegisterIndex => takes_register_index(name),
        Operation::IndexInfo => takes_index_info(name),
        Operation::CloseIndex => takes_index_info(name),
        Operation::MeasureHmPopulation => takes_measure_hm_population(name),
        Operation::PrepareSource => takes_prepare_source(name),
        Operation::MeasureSource => takes_measure_source(name),
        Operation::StartJob => takes_start_job(name),
        Operation::NextJob => takes_next_job(name),
        Operation::JobInfo => takes_index_info(name),
        Operation::CloseJob => takes_index_info(name),
        Operation::Open => takes_open(name),
        Operation::Close => takes_source_info(name),
        Operation::Prepare => takes_prepare(name),
        Operation::PrepareFile => takes_prepare_file(name),
        Operation::DropPlan => takes_drop_plan(name),
        Operation::Stats => takes_stats(name),
        Operation::Backends => takes_stats(name),
        Operation::RegisterFile => takes_register_file(name),
        Operation::CloseFile => takes_source_info(name),
        Operation::ConfigureFileCache => takes_configure_file_cache(name),
        Operation::ClearFileCache => takes_stats(name),
        Operation::Compile => takes_compile(name),
        Operation::Measure => takes_measure(name),
        Operation::MeasureFile => takes_measure_file(name),
        Operation::MeasureRegisteredFile => takes_measure_file(name),
    }
}

fn is_taken(op: Operation, name: &str) -> (r: bool)
    ensures
        r == takes(op, name@),
{
    match op {
        Operation::RegisterSource => is_takes_register_source(name),
        Operation::SourceInfo => is_takes_source_info(name),
        Operation::SourceMetrics => is_takes_source_info(name),
        Operation::BeginSourceQuery => is_takes_source_info(name),
        Operation::CloseSource => is_takes_source_info(name),
        Operation::BeginVerifiedSourceQuery => is_takes_begin_verified_source_query(name),
        Operation::EndVerifiedSourceQuery => is_takes_source_info(name),
        Operation::CompileSource => is_takes_compile_source(name),
        Operation::MeasureOrderedSource => is_takes_measure_ordered_source(name),
        Operation::MeasureOrderedProfile => is_takes_measure_ordered_profile(name),
        Operation::VerifySkv => is_takes_verify_skv(name),
        Operation::RegisterIndex => is_takes_register_index(name),
        Operation::IndexInfo => is_takes_index_info(name),
        Operation::CloseIndex => is_takes_index_info(name),
        Operation::MeasureHmPopulation => is_takes_measure_hm_population(name),
        Operation::PrepareSource => is_takes_prepare_source(name),
        Operation::MeasureSource => is_takes_measure_source(name),
        Operation::StartJob => is_takes_start_job(name),
        Operation::NextJob => is_takes_next_job(name),
        Operation::JobInfo => is_takes_index_info(name),
        Operation::CloseJob => is_takes_index_info(name),
        Operation::Open => is_takes_open(name),
        Operation::Close => is_takes_source_info(name),
        Operation::Prepare => is_takes_prepare(name),
        Operation::PrepareFile => is_takes_prepare_file(name),
        Operation::DropPlan => is_takes_drop_plan(name),
        Operation::Stats => is_takes_stats(name),
        Operation::Backends => is_takes_stats(name),
        Operation::RegisterFile => is_takes_register_file(name),
        Operation::CloseFile => is_takes_source_info(name),
        Operation::ConfigureFileCache => is_takes_configure_file_cache(name),
        Operation::ClearFileCache => is_takes_stats(name),
        Operation::Compile => is_takes_compile(name),
        Operation::Measure => is_takes_measure(name),
        Operation::MeasureFile => is_takes_measure_file(name),
        Operation::MeasureRegisteredFile => is_takes_measure_file(name),
    }
}

/// What a field of a request holds, as far as the boundary looks at it.
pub enum FieldValue {
    Flag(bool),
    Text(String),
    Other,
}

/// A field of a request.
pub struct Field {
    pub name: String,
    pub value: FieldValue,
}

/// The fields of a request, each name once.
pub struct Request {
    pub fields: Vec<Field>,
}

/// The place of a field.
pub open spec fn field_at(fields: Seq<Field>, name: Seq<char>, n: int) -> Option<int>
    decreases n,
{
    if n <= 0 {
        None
    } else {
        match field_at(fields, name, n - 1) {
            Some(i) => Some(i),
            None => if fields[n - 1].name@ == name {
                Some(n - 1)
            } else {
                None
            },
        }
    }
}

impl Request {
    pub open spec fn has(&self, name: Seq<char>) -> bool {
        field_at(self.fields@, name, self.fields@.len() as int) is Some
    }

    /// What a field holds.
    pub open spec fn value(&self, name: Seq<char>) -> Option<FieldValue> {
        match field_at(self.fields@, name, self.fields@.len() as int) {
            Some(i) => Some(self.fields@[i].value),
            None => None,
        }
    }

    /// The text of a field, where it holds one.
    pub open spec fn text_of(&self, name: Seq<char>) -> Option<Seq<char>> {
        match self.value(name) {
            Some(FieldValue::Text(t)) => Some(t@),
            _ => None,
        }
    }

    fn find(&self, name: &str) -> (r: Option<usize>)
        ensures
            match r {
                Some(i) => i < self.fields@.len() && field_at(
                    self.fields@,
                    name@,
                    self.fields@.len() as int,
                ) == Some(i as int),
                None => field_at(self.fields@, name@, self.fields@.len() as int) is None,
            },
    {
        let mut i: usize = 0;
        while i < self.fields.len()
            invariant
                i <= self.fields@.len(),
                field_at(self.fields@, name@, i as int) is None,
            decreases self.fields.len() - i,
        {
            if same(self.fields[i].name.as_str(), name) {
                proof {
                    lemma_found(self.fields@, name@, i as int, self.fields@.len() as int);
                }
                return Some(i);
            }
            i += 1;
        }
        None
    }

    pub fn contains(&self, name: &str) -> (r: bool)
        ensures
            r == self.has(name@),
    {
        self.find(name).is_some()
    }

    /// The text of a field.
    pub fn text(&self, name: &str) -> (r: Option<&String>)
        ensures
            match r {
                Some(t) => self.text_of(name@) == Some(t@),
                None => self.text_of(name@) is None,
            },
    {
        match self.find(name) {
            Some(i) => match &self.fields[i].value {
                FieldValue::Text(t) => Some(t),
                _ => None,
            },
            None => None,
        }
    }

    /// The flag of a field, where it holds one.
    pub open spec fn flag_of(&self, name: Seq<char>) -> Option<bool> {
        match self.value(name) {
            Some(FieldValue::Flag(b)) => Some(b),
            _ => None,
        }
    }

    /// The flag of a field.
    pub fn flag(&self, name: &str) -> (r: Option<bool>)
        ensures
            r == self.flag_of(name@),
            match r {
                Some(b) => self.value(name@) == Some(FieldValue::Flag(b)),
                None => !(self.value(name@) matches Some(FieldValue::Flag(_))),
            },
    {
        match self.find(name) {
            Some(i) => match &self.fields[i].value {
                FieldValue::Flag(b) => Some(*b),
                _ => None,
            },
            None => None,
        }
    }

    /// A text field that must be there.
    pub fn required(&self, name: &str) -> (r: Result<&String, Error>)
        ensures
            match r {
                Ok(t) => self.text_of(name@) == Some(t@),
                Err(e) => e == Error::MissingField && self.text_of(name@) is None,
            },
    {
        match self.text(name) {
            Some(t) => Ok(t),
            None => Err(Error::MissingField),
        }
    }

    /// An identifier that is too long to keep.
    pub open spec fn overlong(&self, name: Seq<char>) -> bool {
        self.text_of(name) matches Some(t) && utf8(t).len() > 1024
    }

    fn is_overlong(&self, name: &str) -> (r: bool)
        ensures
            r == self.overlong(name@),
    {
        match self.text(name) {
            Some(t) => byte_len(t.as_str()) > 1024,
            None => false,
        }
    }

    pub open spec fn no_flag(&self, name: Seq<char>) -> bool {
        match self.value(name) {
            Some(FieldValue::Flag(_)) => false,
            Some(_) => true,
            None => false,
        }
    }

    fn is_no_flag(&self, name: &str) -> (r: bool)
        ensures
            r == self.no_flag(name@),
    {
        match self.find(name) {
            Some(i) => match &self.fields[i].value {
                FieldValue::Flag(_) => false,
                _ => true,
            },
            None => false,
        }
    }

    pub open spec fn no_text(&self, name: Seq<char>) -> bool {
        self.has(name) && self.text_of(name) is None
    }

    fn is_no_text(&self, name: &str) -> (r: bool)
        ensures
            r == self.no_text(name@),
    {
        self.contains(name) && self.text(name).is_none()
    }

    /// Some field is not one that the operation takes. Every operation takes a mode.
    pub open spec fn unknown_field(&self, op: Operation) -> bool {
        exists|i: int|
            0 <= i < self.fields@.len() && !takes(op, (#[trigger] self.fields@[i]).name@)
                && self.fields@[i].name@ != "mode"@
    }

    fn has_unknown_field(&self, op: Operation) -> (r: bool)
        ensures
            r == self.unknown_field(op),
    {
        let mut i: usize = 0;
        while i < self.fields.len()
            invariant
                i <= self.fields@.len(),
                forall|k: int|
                    0 <= k < i ==> takes(op, (#[trigger] self.fields@[k]).name@)
                        || self.fields@[k].name@ == "mode"@,
            decreases self.fields.len() - i,
        {
            let name = self.fields[i].name.as_str();
            if !same(name, "mode") && !is_taken(op, name) {
                return true;
            }
            i += 1;
        }
        false
    }
}

proof fn lemma_found(fields: Seq<Field>, name: Seq<char>, i: int, n: int)
    requires
        0 <= i < n <= fields.len(),
        field_at(fields, name, i) is None,
        fields[i].name@ == name,
    ensures
        field_at(fields, name, n) == Some(i),
    decreases n,
{
    if n - 1 > i {
        lemma_found(fields, name, i, n - 1);
    }
}

pub const PLANAR_MODE: &'static str = "native_grid_planar";

/// The mode of a request is the one that its operation has. `population` is the policy that the
/// spherical population operation must name.
pub open spec fn mode_refusal(r: Request, op: Operation, population: Seq<char>) -> Option<Error> {
    if op == Operation::MeasureHmPopulation {
        if r.text_of("mode"@) == Some(population) {
            None
        } else {
            Some(Error::PopulationMode)
        }
    } else if r.has("mode"@) && r.text_of("mode"@) != Some(PLANAR_MODE@) {
        Some(Error::NumericalMode)
    } else {
        None
    }
}

/// What a request is refused for before anything is done.
pub open spec fn request_refusal(r: Request, population: Seq<char>) -> Option<Error> {
    match r.text_of("op"@) {
        None => Some(Error::MissingField),
        Some(name) => if r.overlong("id"@) || r.overlong("source"@) || r.overlong("plan"@)
            || r.overlong("index_handle"@) {
            Some(Error::LongIdentifier)
        } else {
            match operation_of(name) {
                None => Some(Error::UnknownOperation),
                Some(op) => fields_refusal(r, op, population),
            }
        },
    }
}

/// What the fields of a request are refused for.
pub open spec fn fields_refusal(r: Request, op: Operation, population: Seq<char>) -> Option<Error> {
    if r.unknown_field(op) {
        Some(Error::UnknownField)
    } else if r.no_flag("debug_cells"@) || r.no_flag("use_index"@) {
        Some(Error::FieldNotBoolean)
    } else if r.no_text("strategy"@) {
        Some(Error::FieldNotText)
    } else if r.has("strategy"@) && r.text_of("strategy"@) != Some("scanline"@) && r.text_of(
        "strategy"@,
    ) != Some("direct"@) {
        Some(Error::CoverageStrategy)
    } else if r.no_text("backend"@) || r.no_text("layout"@) || r.no_text("index"@) || r.no_text(
        "index_handle"@,
    ) || r.no_text("raw_path"@) || r.no_text("expected_build_id"@) {
        Some(Error::FieldNotText)
    } else if r.has("plan"@) && (r.has("geometry"@) || r.has("crs"@) || r.has("strategy"@)) {
        Some(Error::PlanExclusive)
    } else if op == Operation::Open && r.has("path"@) == r.has("raster"@) {
        Some(Error::PathOrRaster)
    } else {
        mode_refusal(r, op, population)
    }
}

fn is_text(r: &Request, name: &str, value: &str) -> (b: bool)
    ensures
        b == (r.text_of(name@) == Some(value@)),
{
    match r.text(name) {
        Some(t) => same(t.as_str(), value),
        None => false,
    }
}

fn check_fields(r: &Request, op: Operation, population: &str) -> (out: Result<(), Error>)
    ensures
        out == match fields_refusal(*r, op, population@) {
            Some(e) => Err::<(), Error>(e),
            None => Ok(()),
        },
{
    if r.has_unknown_field(op) {
        return Err(Error::UnknownField);
    }
    if r.is_no_flag("debug_cells") || r.is_no_flag("use_index") {
        return Err(Error::FieldNotBoolean);
    }
    if r.is_no_text("strategy") {
        return Err(Error::FieldNotText);
    }
    if r.contains("strategy") && !is_text(r, "strategy", "scanline") && !is_text(
        r,
        "strategy",
        "direct",
    ) {
        return Err(Error::CoverageStrategy);
    }
    if r.is_no_text("backend") || r.is_no_text("layout") || r.is_no_text("index") || r.is_no_text(
        "index_handle",
    ) || r.is_no_text("raw_path") || r.is_no_text("expected_build_id") {
        return Err(Error::FieldNotText);
    }
    if r.contains("plan") && (r.contains("geometry") || r.contains("crs") || r.contains(
        "strategy",
    )) {
        return Err(Error::PlanExclusive);
    }
    match op {
        Operation::Open => {
            if r.contains("path") == r.contains("raster") {
                return Err(Error::PathOrRaster);
            }
        },
        _ => {},
    }
    match op {
        Operation::MeasureHmPopulation => {
            if !is_text(r, "mode", population) {
                return Err(Error::PopulationMode);
            }
        },
        _ => {
            if r.contains("mode") && !is_text(r, "mode", PLANAR_MODE) {
                return Err(Error::NumericalMode);
            }
        },
    }
    Ok(())
}

impl Request {
    /// Check a request, and give its operation.
    pub fn check(&self, population: &str) -> (r: Result<Operation, Error>)
        ensures
            match request_refusal(*self, population@) {
                Some(e) => r == Err::<Operation, Error>(e),
                None => r == Ok::<Operation, Error>(operation_of(self.text_of("op"@)->0)->0),
            },
    {
        let name = self.required("op")?;
        if self.is_overlong("id") || self.is_overlong("source") || self.is_overlong("plan")
            || self.is_overlong("index_handle") {
            return Err(Error::LongIdentifier);
        }
        match find_operation(name.as_str()) {
            None => Err(Error::UnknownOperation),
            Some(op) => {
                check_fields(self, op, population)?;
                Ok(op)
            },
        }
    }
}

} // verus!
