//! Bounded raster access: exact byte packing, request planning and admission.
pub mod algebra;
pub mod bytes;
pub mod cancel;
pub mod canonical;
pub mod categories;
pub mod category_laws;
pub mod codec;
pub mod content;
pub mod convex_laws;
pub mod coverage_laws;
pub mod digits;
pub mod dyadic;
pub mod error;
pub mod hierarchy;
pub mod index;
pub mod layout;
pub mod model;
pub mod moment_laws;
pub mod moments;
pub mod outcome_laws;
pub mod persistent;
pub mod persistent_build;
pub mod persistent_index;
pub mod persistent_joint;
pub mod persistent_page;
pub mod persistent_query;
pub mod persistent_records;
pub mod persistent_visit;
pub mod persistent_walk;
pub mod precise;
pub mod precise_laws;
pub mod prefetch_laws;
pub mod profile_request;
pub mod profile_text;
pub mod quantiles;
pub mod query_laws;
pub mod range_schedule;
pub mod rational;
pub mod reducer_laws;
pub mod reducers;
pub mod request;
pub mod routes;
pub mod row_laws;
pub mod serving_profile;
pub mod session;
pub mod session_call;
pub mod session_laws;
pub mod shared_rows;
pub mod skv_audit;
pub mod skv_build;
pub mod skv_compile;
pub mod skv_deflate;
pub mod skv_delta;
pub mod skv_directory;
pub mod skv_group;
pub mod skv_header;
pub mod skv_native;
pub mod skv_prefetch;
pub mod skv_readback;
pub mod skv_reader;
pub mod skv_record;
pub mod skv_roundtrip;
pub mod skv_serve;
pub mod skv_source;
pub mod skv_summary;
pub mod skv_tiles;
pub mod skv_verify;
pub mod skv_window;
pub mod skv_window_serve;
pub mod skv_writer;
pub mod source;
pub mod source_adapter;
pub mod source_axes;
pub mod source_buffer;
pub mod source_open;
pub mod source_raw;
pub mod source_vsi;
pub mod source_window;
pub mod text;
