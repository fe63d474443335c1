//! What compiling a serving object takes, decided before anything is written: the order in
//! which bands are stored, the memory that the widest chunk needs, and room for the directory.
use vstd::prelude::*;

use crate::cancel::{check_cancel, ended, Cancel};
use crate::error::Error;
use crate::layout::{end_of, grid_levels, min_of, widen, SummaryLayout};
use crate::model::Grid;
use crate::skv_compile::leaf_box;
use crate::skv_directory::{lemma_leaf_cells, node_bounds};
use crate::skv_group::MAX_BYTES;
use crate::skv_header::{groups_divide_the_bands, CompileOptions, Header, HierarchyDescription};
use crate::source::RawRasterMetadata;
use crate::source_buffer::RawBound;

verus! {

/// How many bands are stored together, beginning with `first`.
pub open spec fn run_length(header: &Header, band_group: int, first: int) -> int {
    if header.grouped_spec() {
        header.group_spec(first).1
    } else {
        min_of(band_group, header.raw_metadata.bands@.len() - first)
    }
}

/// The bands in the order in which they are stored: the first band and the number of each run.
pub open spec fn runs_from(
    header: &Header,
    band_group: int,
    first: int,
    before: Seq<(int, int)>,
) -> Seq<(int, int)>
    decreases header.raw_metadata.bands@.len() - first,
{
    let count = run_length(header, band_group, first);
    if first >= header.raw_metadata.bands@.len() || count < 1 || first + count
        > header.raw_metadata.bands@.len() {
        before
    } else {
        runs_from(
            header,
            band_group,
            first + count,
            before.push((first, count)),
        )
    }
}

spec fn counted(runs: Seq<(usize, usize)>) -> Seq<(int, int)> {
    runs.map_values(|r: (usize, usize)| (r.0 as int, r.1 as int))
}

/// The runs follow one another from the first band to behind the last.
pub open spec fn joined(runs: Seq<(int, int)>, end: int) -> bool {
    &&& end == 0 ==> runs.len() == 0
    &&& end > 0 ==> runs.len() > 0 && runs[0].0 == 0 && runs.last().0 + runs.last().1 == end
    &&& forall|i: int|
        0 <= i < runs.len() ==> {
            let run = #[trigger] runs[i];
            run.1 >= 1 && (i > 0 ==> run.0 == runs[i - 1].0 + runs[i - 1].1)
        }
}

/// A run of a grouped object begins where a group does.
pub(crate) proof fn lemma_next_group(header: &Header, first: int)
    requires
        header.shaped(),
        0 <= first < header.raw_metadata.bands@.len(),
        header.group_spec(first).0 == first,
    ensures
        header.group_spec(first).1 >= 1,
        first + header.group_spec(first).1 <= header.raw_metadata.bands@.len(),
        first + header.group_spec(first).1 < header.raw_metadata.bands@.len()
            ==> header.group_spec(first + header.group_spec(first).1).0 == first
            + header.group_spec(first).1,
{
    let widths = header.widths();
    let edge = header.chunk_edge as int;
    let group = header.band_group as int;
    if header.grouped_spec() {
        groups_divide_the_bands(widths, edge, group, first);
        let next = first + header.group_spec(first).1;
        if next < widths.len() {
            groups_divide_the_bands(widths, edge, group, next);
            let g = header.group_spec(next);
            if g.0 < next {
                // A group that began earlier would hold the last band of this one too.
                assert(g.0 <= next - 1 < g.0 + g.1);
                assert(header.group_spec(next - 1) == g);
                assert(header.group_spec(next - 1) == header.group_spec(first));
            }
        }
    }
}

/// The order in which the bands are stored.
pub fn physical_groups(header: &Header, band_group: usize) -> (r: Vec<(usize, usize)>)
    requires
        header.shaped(),
        band_group >= 1,
    ensures
        r@.map_values(|r: (usize, usize)| (r.0 as int, r.1 as int)) == runs_from(
            header,
            band_group as int,
            0,
            Seq::empty(),
        ),
        joined(
            r@.map_values(|r: (usize, usize)| (r.0 as int, r.1 as int)),
            header.raw_metadata.bands@.len() as int,
        ),
{
    let n: usize = header.bands();
    let mut runs: Vec<(usize, usize)> = Vec::new();
    let mut first: usize = 0;
    let ghost group = band_group as int;
    proof {
        assert(counted(runs@) =~= Seq::<(int, int)>::empty());
        if header.grouped_spec() && n > 0 {
            groups_divide_the_bands(header.widths(), header.chunk_edge as int, header.band_group as int, 0);
        }
    }
    while first < n
        invariant
            first <= n,
            n == header.raw_metadata.bands@.len(),
            header.shaped(),
            band_group >= 1,
            group == band_group,
            first < n ==> header.group_spec(first as int).0 == first,
            joined(counted(runs@), first as int),
            runs_from(header, group, 0, Seq::empty()) == runs_from(
                header,
                group,
                first as int,
                counted(runs@),
            ),
        decreases n - first,
    {
        proof {
            lemma_next_group(header, first as int);
        }
        let count: usize = if header.grouped() {
            match header.band_group_bounds(first) {
                Ok(g) => g.1,
                Err(_) => 1,
            }
        } else if band_group < n - first {
            band_group
        } else {
            n - first
        };
        let ghost before = counted(runs@);
        runs.push((first, count));
        proof {
            assert(counted(runs@) =~= before.push((first as int, count as int)));
            let now = counted(runs@);
            assert forall|i: int| 0 <= i < now.len() implies {
                let run = #[trigger] now[i];
                run.1 >= 1 && (i > 0 ==> run.0 == now[i - 1].0 + now[i - 1].1)
            } by {
                if i < before.len() {
                    assert(now[i] == before[i]);
                }
            }
        }
        first = first + count;
    }
    runs
}

/// The memory beside a source's own that one chunk of a band takes.
pub open spec fn chunk_extra(header: &Header, band: int) -> int {
    let cells = header.chunk_edge * header.chunk_edge;
    cells * (3 * (header.widths()[band] + 1) + 9) + 4194304 + if header.grouped_spec() {
        2 * MAX_BYTES + 1048576
    } else {
        0
    }
}

/// The memory that one chunk takes, or why there is no bound.
pub open spec fn chunk_working<S: RawBound>(source: &S, header: &Header, band: int, node: int) -> Result<
    usize,
    Error,
> {
    let b = leaf_box(header, node);
    let window = seq![b.0 as usize, b.1 as usize, (b.2 - b.0) as usize, (b.3 - b.1) as usize];
    match source.raw_bound(window, seq![band as usize]) {
        Err(e) => Err(e),
        Ok(input) => if input + chunk_extra(header, band) > usize::MAX {
            Err(Error::BuildBuffer)
        } else {
            Ok((input + chunk_extra(header, band)) as usize)
        },
    }
}

/// The memory that the first `t` chunks take, band after band, each over all tiles, or the
/// first refusal.
pub open spec fn working_through<S: RawBound>(source: &S, header: &Header, t: nat) -> Result<
    usize,
    Error,
>
    decreases t,
{
    if t == 0 {
        Ok(33554432)
    } else {
        let i = t - 1;
        match working_through(source, header, i as nat) {
            Err(e) => Err(e),
            Ok(most) => match chunk_working(
                source,
                header,
                i / header.leaf_count(),
                i % header.leaf_count(),
            ) {
                Err(e) => Err(e),
                Ok(bytes) => Ok(
                    if bytes > most {
                        bytes
                    } else {
                        most
                    },
                ),
            },
        }
    }
}

proof fn lemma_working_stops<S: RawBound>(source: &S, header: &Header, k: nat, n: nat)
    requires
        k <= n,
        working_through(source, header, k) is Err,
    ensures
        working_through(source, header, n) == working_through(source, header, k),
    decreases n,
{
    if k < n {
        lemma_working_stops(source, header, k, (n - 1) as nat);
    }
}

/// The memory that compiling takes.
pub open spec fn working_of<S: RawBound>(source: &S, header: &Header) -> Result<usize, Error> {
    working_through(
        source,
        header,
        (header.raw_metadata.bands@.len() * header.leaf_count()) as nat,
    )
}

/// Admission covers the actual compiler schedule: a source may
/// prove a smaller footprint for an aligned chunk, or require more for
/// a later chunk crossing a physical block boundary.
pub fn working_bound<S: RawBound, C: Cancel>(source: &S, header: &Header, cancel: &C) -> (r: Result<
    usize,
    Error,
>)
    requires
        header.shaped(),
    ensures
        ended(cancel, r, r == working_of(source, header)),
{
    let leaves: usize = header.leaves();
    let bands: usize = header.bands();
    let grouped = header.grouped();
    let mut most: usize = 33554432;
    let mut band: usize = 0;
    let ghost l = leaves as int;
    let ghost n = bands as int;
    proof {
        assert(0 * l == 0) by (nonlinear_arith);
    }
    while band < bands
        invariant
            band <= bands,
            bands == header.raw_metadata.bands@.len(),
            leaves == header.leaf_count(),
            leaves >= 1,
            l == leaves,
            n == bands,
            header.shaped(),
            grouped == header.grouped_spec(),
            0 <= band * l,
            working_through(source, header, (band * l) as nat) == Ok::<usize, Error>(most),
            cancel.always() ==> band == 0,
        decreases bands - band,
    {
        let scalar: usize = header.raw_metadata.bands[band].scalar_type.byte_width();
        let edge: usize = header.chunk_edge;
        let ghost w = header.widths()[band as int];
        proof {
            lemma_extra(header, band as int);
            assert(scalar == w);
        }
        let cells: usize = edge * edge;
        let plain: usize = cells * (3 * (scalar + 1) + 9) + 4194304;
        let extra: usize = if grouped {
            plain + 2 * MAX_BYTES + 1048576
        } else {
            plain
        };
        let mut node: usize = 0;
        while node < leaves
            invariant
                node <= leaves,
                band < bands,
                bands == header.raw_metadata.bands@.len(),
                leaves == header.leaf_count(),
                leaves >= 1,
                l == leaves,
                n == bands,
                header.shaped(),
                extra == chunk_extra(header, band as int),
                0 <= band * l,
                working_through(source, header, (band * l + node) as nat) == Ok::<usize, Error>(
                    most,
                ),
                cancel.always() ==> band == 0 && node == 0,
            decreases leaves - node,
        {
            check_cancel(cancel)?;
            proof {
                lemma_leaf_cells(header, node as int);
                lemma_chunk_number(band as int, node as int, l, n);
            }
            let ghost t = (band * l + node) as nat;
            let ghost total = (n * l) as nat;
            let tile = node_bounds(header, node);
            let bands_read: [usize; 1] = [band];
            let found = source.raw_read_buffer_bound_at(
                tile[0],
                tile[1],
                tile[2] - tile[0],
                tile[3] - tile[1],
                bands_read.as_slice(),
            );
            assert(bands_read@ =~= seq![band]);
            let input: usize = match found {
                Ok(input) => input,
                Err(e) => {
                    proof {
                        lemma_working_stops(source, header, t + 1, total);
                    }
                    return Err(e);
                },
            };
            let bytes: usize = match input.checked_add(extra) {
                Some(bytes) => bytes,
                None => {
                    proof {
                        lemma_working_stops(source, header, t + 1, total);
                    }
                    return Err(Error::BuildBuffer);
                },
            };
            if bytes > most {
                most = bytes;
            }
            node += 1;
        }
        proof {
            assert((band + 1) * l == band * l + l) by (nonlinear_arith);
        }
        band += 1;
    }
    check_cancel(cancel)?;
    Ok(most)
}

proof fn lemma_extra(header: &Header, band: int)
    requires
        header.shaped(),
        0 <= band < header.raw_metadata.bands@.len(),
    ensures
        0 < header.chunk_edge * header.chunk_edge <= 65536,
        0 < header.chunk_edge * header.chunk_edge * (3 * (header.widths()[band] + 1) + 9)
            <= 65536 * 36,
        1 <= header.widths()[band] <= 8,
{
    let e = header.chunk_edge as int;
    let w = header.widths()[band];
    assert(0 < e * e <= 65536) by (nonlinear_arith)
        requires
            1 <= e <= 256,
    ;
    let c = e * e;
    assert(0 < c * (3 * (w + 1) + 9) <= 65536 * 36) by (nonlinear_arith)
        requires
            0 < c <= 65536,
            1 <= w <= 8,
    ;
}

proof fn lemma_chunk_number(band: int, node: int, leaves: int, bands: int)
    requires
        0 <= band < bands,
        0 <= node < leaves,
    ensures
        (band * leaves + node) / leaves == band,
        (band * leaves + node) % leaves == node,
        0 <= band * leaves + node < bands * leaves,
{
    vstd::arithmetic::div_mod::lemma_fundamental_div_mod_converse(
        band * leaves + node,
        leaves,
        band,
        node,
    );
    assert(0 <= band * leaves + node < bands * leaves) by (nonlinear_arith)
        requires
            0 <= band < bands,
            0 <= node < leaves,
    ;
}

/// Why compiling is refused before anything is written, if it is.
pub open spec fn build_refusal(header: &Header, options: CompileOptions, working: int) -> Option<
    Error,
> {
    if working > options.working_bytes {
        Some(Error::WorkingBudget)
    } else if header.data_start() >= options.max_output_bytes {
        Some(Error::DirectoryOutput)
    } else {
        None
    }
}

/// Check that the working memory and the directory fit.
pub fn check_build(header: &Header, options: &CompileOptions, working: usize) -> (r: Result<
    (),
    Error,
>)
    requires
        header.shaped(),
    ensures
        r == (match build_refusal(header, *options, working as int) {
            Some(e) => Err::<(), Error>(e),
            None => Ok(()),
        }),
{
    if working > options.working_bytes {
        return Err(Error::WorkingBudget);
    }
    if header.data_offset() >= options.max_output_bytes {
        return Err(Error::DirectoryOutput);
    }
    Ok(())
}

/// What an object is compiled from, beside the options.
pub struct CompileSource {
    pub grid: Grid,
    pub raw_metadata: RawRasterMetadata,
    /// How many bands the source serves normalized.
    pub bands: usize,
    pub source_id: String,
    pub identity: Option<String>,
    pub build_id: String,
}

/// The digest of nothing yet.
pub open spec fn zeros(text: Seq<char>) -> bool {
    text.len() == 64 && forall|i: int| 0 <= i < 64 ==> #[trigger] text[i] == '0'
}

/// The header of an object before anything is written: what the options and the source say, with
/// digests still to come.
pub open spec fn begun_for(h: Header, s: CompileSource, o: CompileOptions) -> bool {
    &&& h.version == 0
    &&& h.grid == s.grid
    &&& h.raw_metadata == s.raw_metadata
    &&& h.chunk_edge == o.chunk_edge
    &&& h.band_group == o.band_group
    &&& h.payload_layout@ == o.payload_layout@
    &&& h.codec@ == o.codec@
    &&& h.predictor@ == o.predictor@
    &&& h.compression_level == o.compression_level
    &&& h.summaries == o.summaries
    &&& h.hierarchy.tile_edge == o.chunk_edge
    &&& widen(h.hierarchy.levels@) == grid_levels(
        s.grid.width as int,
        s.grid.height as int,
        o.chunk_edge as int,
        false,
    )
    &&& h.numerical_schema@ == "native_grid_planar_compensated_v1"@
    &&& h.build_id == s.build_id
    &&& h.original_source_id == s.source_id
    &&& h.original_identity == s.identity
    &&& zeros(h.logical_digest@)
    &&& zeros(h.directory_digest@)
    &&& h.summary_disabled_reason is None
}

/// What compiling is refused for before its header is made.
pub open spec fn compile_refusal(s: CompileSource, o: CompileOptions) -> Option<Error> {
    if o.refusal() is Some {
        o.refusal()
    } else if s.raw_metadata.bands@.len() != s.bands {
        Some(Error::MetadataBands)
    } else if !s.grid.valid() {
        Some(Error::GridShape)
    } else if end_of(
        grid_levels(s.grid.width as int, s.grid.height as int, o.chunk_edge as int, false),
    ) > usize::MAX {
        Some(Error::LayoutOverflow)
    } else {
        None
    }
}

fn zero_digest() -> (r: String)
    ensures
        zeros(r@),
{
    proof {
        reveal_strlit("0000000000000000000000000000000000000000000000000000000000000000");
    }
    "0000000000000000000000000000000000000000000000000000000000000000".to_owned()
}

/// The header that compiling begins with, or what the options, the source or the header is
/// refused for.
pub fn compile_header(s: CompileSource, options: &CompileOptions) -> (r: Result<Header, Error>)
    ensures
        match compile_refusal(s, *options) {
            Some(e) => r is Err && r->Err_0 == e,
            None => match r {
                Ok(h) => begun_for(h, s, *options) && h.refusal() is None && h.shaped(),
                Err(e) => exists|h: Header| #[trigger]
                    begun_for(h, s, *options) && h.refusal() == Some(e),
            },
        },
{
    options.validate()?;
    if s.raw_metadata.bands.len() != s.bands {
        return Err(Error::MetadataBands);
    }
    s.grid.validate()?;
    let layout = SummaryLayout::new(s.grid.width, s.grid.height, options.chunk_edge, false)?;
    let h = Header {
        version: 0,
        grid: s.grid,
        raw_metadata: s.raw_metadata,
        chunk_edge: options.chunk_edge,
        band_group: options.band_group,
        payload_layout: options.payload_layout.as_str().to_owned(),
        codec: options.codec.as_str().to_owned(),
        predictor: options.predictor.as_str().to_owned(),
        compression_level: options.compression_level,
        summaries: options.summaries,
        hierarchy: HierarchyDescription { tile_edge: layout.tile_edge, levels: layout.levels },
        numerical_schema: "native_grid_planar_compensated_v1".to_owned(),
        build_id: s.build_id,
        original_source_id: s.source_id,
        original_identity: s.identity,
        logical_digest: zero_digest(),
        directory_digest: zero_digest(),
        summary_disabled_reason: None,
    };
    assert(begun_for(h, s, *options));
    h.validate()?;
    Ok(h)
}

/// Settle whether an object serves summaries: those that were asked for, where every record has
/// one. Where one could not be stored, none is served, and the header says why.
pub fn settle_summaries(header: &mut Header, wanted: bool, every: bool)
    ensures
        final(header).summaries == (wanted && every),
        if wanted && !every {
            final(header).summary_disabled_reason matches Some(reason) && reason@
                == "nonfinite_or_unrepresentable_compensated_state"@
        } else {
            final(header).summary_disabled_reason == old(header).summary_disabled_reason
        },
        *final(header) == (Header {
            summaries: final(header).summaries,
            summary_disabled_reason: final(header).summary_disabled_reason,
            ..*old(header)
        }),
{
    header.summaries = wanted && every;
    if wanted && !every {
        header.summary_disabled_reason = Some(
            "nonfinite_or_unrepresentable_compensated_state".to_owned(),
        );
    }
}

} // verus!
