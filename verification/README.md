# skarve

Bounded access to native-grid rasters: original samples, serving objects that hold them in
compressed chunks, and persistent indexes of exact summaries. The library decides and computes
on plain values, under contracts that Verus proves; what it takes on trust from other crates
stands in the doc comments of the functions that call them.

- `src/` is the verified library. Arithmetic on doubles, files, transports and decoders are the
  caller's; their outcomes come in as plain values.
- `tests/` runs the library on concrete values.
- `app/` is ordinary Rust around it: files, JSON documents, floating point and GDAL.

The modules by subject:

| subject | modules |
| --- | --- |
| numbers and text | `algebra`, `bytes`, `digits`, `dyadic`, `index`, `rational`, `text` |
| digests and codecs | `canonical`, `codec`, `content`, `skv_deflate`, `skv_delta`, `skv_group`, `skv_native` |
| grids and trees of tiles | `model`, `layout`, `hierarchy` |
| original sources | `source`, `source_open`, `source_axes`, `source_adapter`, `source_raw`, `source_buffer`, `source_window`, `source_vsi` |
| serving objects, written | `skv_header`, `skv_record`, `skv_build`, `skv_compile`, `skv_summary`, `skv_writer` |
| serving objects, read | `skv_directory`, `skv_reader`, `skv_source`, `skv_tiles`, `skv_window`, `skv_serve`, `skv_window_serve`, `skv_readback`, `skv_roundtrip`, `skv_prefetch`, `skv_audit`, `skv_verify` |
| persistent indexes | `persistent`, `persistent_page`, `persistent_build`, `persistent_index`, `persistent_query`, `persistent_records`, `persistent_visit`, `persistent_walk`, `persistent_joint`, `range_schedule` |
| statistics | `reducers`, `moments`, `quantiles`, `categories`, `shared_rows`, `precise` |
| requests | `request`, `routes`, `session`, `session_call`, `serving_profile`, `profile_request`, `profile_text` |

Laws that relate several functions are public proof functions beside them; their names are
sentences, such as `a_read_window_is_what_was_written` or `optimal_is_unique`.
