//! Reads of an ordinary raster source: how much memory a read needs, which layouts are decoded
//! within a bound of their own, which blocks a remote read fetches ahead, and in which steps
//! the decoder is driven.
use vstd::prelude::*;

use crate::cancel::{check_cancel, ended, Cancel};
use crate::error::Error;
use crate::layout::min_of;
use crate::model::{ceil_div, div_ceil, lemma_ceil_div};
use crate::skv_source::NATIVE_SOURCE_RETAINED_BYTES;
use crate::source::{distinct, RawBandWindow, RawScalarType, SourceFormat};
use crate::text::same;

verus! {

/// What the decoder of a qualified layout keeps besides its blocks.
pub const PIXEL_CODEC_RESERVE: usize = 2097152;

/// The most cells of one decoding step, unless one row holds more.
pub const STEP_CELLS: usize = 65536;

/// What transport needs besides its largest range.
pub const TRANSPORT_SCRATCH: usize = 65536;

/// The largest encoded block of a qualified layout.
pub const MAX_ENCODED_BLOCK: usize = 33554432;

/// One band of a TIFF as its driver reports it.
#[derive(Debug)]
pub struct TiffBand {
    pub kind: String,
    pub block: (usize, usize),
    pub mask_block: (usize, usize),
    pub all_valid: bool,
    pub per_dataset: bool,
    pub alpha: bool,
    pub nodata: bool,
}

/// What decides whether a TIFF has a layout of known decoding cost.
pub struct TiffLayout {
    /// The version number of the decoding library.
    pub version: String,
    pub format: SourceFormat,
    pub overview: Option<usize>,
    pub driver: String,
    pub interleave: Option<String>,
    pub compression: Option<String>,
    pub predictor: Option<String>,
    pub width: usize,
    pub height: usize,
    pub bands: Vec<TiffBand>,
}

/// Tiles of a pixel-interleaved source whose decoding needs a known amount of memory.
#[derive(Clone, Copy, Debug, PartialEq, Eq, Structural)]
pub struct PixelAdmission {
    pub width: usize,
    pub height: usize,
    pub bands: usize,
    /// The largest encoded tile, in whole kibibytes.
    pub encoded: usize,
}

/// An optional text that is there and reads so.
pub open spec fn is_text(value: Option<String>, word: Seq<char>) -> bool {
    value is Some && value->0@ == word
}

fn is_word(value: &Option<String>, word: &str) -> (r: bool)
    ensures
        r == is_text(*value, word@),
{
    match value {
        Some(text) => same(text.as_str(), word),
        None => false,
    }
}

impl TiffBand {
    /// Samples of four bytes in blocks of this shape, whose masks are either trivial or made
    /// from NoData.
    pub open spec fn qualifies(&self, block: (usize, usize)) -> bool {
        &&& self.kind@ == "UInt32"@ || self.kind@ == "Int32"@ || self.kind@ == "Float32"@
        &&& self.block == block
        &&& self.all_valid || (self.nodata && !self.per_dataset && !self.alpha)
        &&& self.mask_block == block
    }

    fn check_block(&self, block: (usize, usize)) -> (r: bool)
        ensures
            r == self.qualifies(block),
    {
        (same(self.kind.as_str(), "UInt32") || same(self.kind.as_str(), "Int32") || same(
            self.kind.as_str(),
            "Float32",
        )) && self.block.0 == block.0 && self.block.1 == block.1 && (self.all_valid || (self.nodata
            && !self.per_dataset && !self.alpha)) && self.mask_block.0 == block.0
            && self.mask_block.1 == block.1
    }
}

impl TiffLayout {
    /// The shape of a block, which all bands share where the layout qualifies.
    pub open spec fn block(&self) -> (usize, usize) {
        self.bands@[0].block
    }

    /// Blocks in all.
    pub open spec fn tiles(&self) -> int {
        ceil_div(self.width as int, self.block().0 as int) * ceil_div(
            self.height as int,
            self.block().1 as int,
        )
    }

    /// The driver, the codec and the interleaving are those whose cost is known.
    pub open spec fn known_codec(&self) -> bool {
        &&& self.version@ == "3080400"@ || self.version@ == "3080500"@
        &&& self.format == SourceFormat::Geotiff
        &&& self.overview is None
        &&& self.driver@ == "GTiff"@
        &&& is_text(self.interleave, "PIXEL"@)
        &&& is_text(self.compression, "DEFLATE"@)
        &&& self.predictor is None
        &&& self.bands@.len() <= 64
    }

    /// Bounded tiles that do not span the raster, and not too many of them.
    pub open spec fn bounded_tiles(&self) -> bool {
        &&& 0 < self.block().0 < self.width
        &&& 0 < self.block().1
        &&& self.block().0 <= 512
        &&& self.block().1 <= 512
        &&& self.tiles() <= 4096
    }

    /// The layout is one of known decoding cost.
    pub open spec fn qualifies(&self) -> bool {
        &&& self.known_codec()
        &&& self.bounded_tiles()
        &&& forall|i: int|
            0 <= i < self.bands@.len() ==> (#[trigger] self.bands@[i]).qualifies(self.block())
    }

    /// How many blocks there are to ask for, if the layout is one of known decoding cost.
    pub fn qualified_tiles(&self) -> (r: Option<(usize, usize)>)
        requires
            self.bands@.len() > 0,
        ensures
            r is Some == self.qualifies(),
            r is Some ==> (r->0).0 == ceil_div(self.width as int, self.block().0 as int) && (r->0).1
                == ceil_div(self.height as int, self.block().1 as int) && (r->0).0 * (r->0).1
                == self.tiles(),
    {
        if !(same(self.version.as_str(), "3080400") || same(self.version.as_str(), "3080500")) {
            return None;
        }
        if self.format != SourceFormat::Geotiff || self.overview.is_some() || !same(
            self.driver.as_str(),
            "GTiff",
        ) || !is_word(&self.interleave, "PIXEL") || !is_word(&self.compression, "DEFLATE")
            || self.predictor.is_some() || self.bands.len() > 64 {
            return None;
        }
        let block: (usize, usize) = self.bands[0].block;
        if block.0 == 0 || block.1 == 0 || block.0 >= self.width || block.0 > 512 || block.1
            > 512 {
            return None;
        }
        let across: usize = div_ceil(self.width, block.0);
        let down: usize = div_ceil(self.height, block.1);
        match across.checked_mul(down) {
            Some(tiles) => {
                if tiles > 4096 {
                    return None;
                }
            },
            None => return None,
        }
        let mut i: usize = 0;
        while i < self.bands.len()
            invariant
                i <= self.bands@.len(),
                block == self.block(),
                forall|k: int|
                    0 <= k < i ==> (#[trigger] self.bands@[k]).qualifies(self.block()),
            decreases self.bands@.len() - i,
        {
            if !self.bands[i].check_block(block) {
                assert(!self.bands@[i as int].qualifies(self.block()));
                return None;
            }
            i += 1;
        }
        Some((across, down))
    }
}

/// A size rounded up to whole kibibytes.
pub open spec fn kibibytes(size: int) -> int {
    (size + 1023) / 1024 * 1024
}

/// Every block is there, and none is empty or too large.
pub open spec fn bounded_blocks(sizes: Seq<Option<usize>>) -> bool {
    forall|i: int|
        0 <= i < sizes.len() ==> ((#[trigger] sizes[i]) is Some && 0 < sizes[i]->0
            <= MAX_ENCODED_BLOCK)
}

/// The largest of the first `k` sizes, in whole kibibytes.
pub open spec fn high_water(sizes: Seq<Option<usize>>, k: nat) -> int
    decreases k,
{
    if k == 0 {
        0
    } else {
        let before = high_water(sizes, (k - 1) as nat);
        let size = kibibytes(sizes[k - 1]->0 as int);
        if size > before {
            size
        } else {
            before
        }
    }
}

/// Qualify a source for decoding one tile at a time within its own bound. `sizes` are the
/// encoded sizes of the blocks as the driver reports them.
pub fn qualify_pixel<C: Cancel>(
    layout: &TiffLayout,
    sizes: &[Option<usize>],
    cancel: &C,
) -> (r: Result<Option<PixelAdmission>, Error>)
    requires
        layout.bands@.len() > 0,
        layout.qualifies() ==> sizes@.len() == layout.tiles(),
    ensures
        r is Err ==> r == Err::<Option<PixelAdmission>, Error>(Error::Cancelled)
            && !cancel.never(),
        r is Ok ==> (r->Ok_0 is Some == (layout.qualifies() && bounded_blocks(sizes@))),
        r is Ok && r->Ok_0 is Some ==> r->Ok_0->0 == (PixelAdmission {
            width: layout.block().0,
            height: layout.block().1,
            bands: layout.bands@.len() as usize,
            encoded: high_water(sizes@, sizes@.len()) as usize,
        }) && high_water(sizes@, sizes@.len()) <= MAX_ENCODED_BLOCK,
{
    if layout.qualified_tiles().is_none() {
        return Ok(None);
    }
    let mut encoded: usize = 0;
    let mut i: usize = 0;
    while i < sizes.len()
        invariant
            i <= sizes@.len(),
            layout.qualifies(),
            encoded == high_water(sizes@, i as nat),
            encoded <= MAX_ENCODED_BLOCK,
            forall|k: int|
                0 <= k < i ==> ((#[trigger] sizes@[k]) is Some && 0 < sizes@[k]->0
                    <= MAX_ENCODED_BLOCK),
        decreases sizes@.len() - i,
    {
        match check_cancel(cancel) {
            Ok(()) => {},
            Err(e) => return Err(e),
        }
        let size: usize = match sizes[i] {
            Some(size) => size,
            None => {
                assert(!(sizes@[i as int] is Some));
                return Ok(None);
            },
        };
        if size == 0 || size > MAX_ENCODED_BLOCK {
            assert(!(0 < sizes@[i as int]->0 <= MAX_ENCODED_BLOCK));
            return Ok(None);
        }
        let rounded: usize = (size + 1023) / 1024 * 1024;
        if rounded > encoded {
            encoded = rounded;
        }
        i += 1;
    }
    Ok(
        Some(
            PixelAdmission {
                width: layout.bands[0].block.0,
                height: layout.bands[0].block.1,
                bands: layout.bands.len(),
                encoded,
            },
        ),
    )
}

/// An opened source as far as the memory of its reads goes.
pub struct SourceAdapter {
    pub width: usize,
    pub height: usize,
    /// The block of each exposed band.
    pub blocks: Vec<(usize, usize)>,
    /// The block of each exposed band's mask.
    pub mask_blocks: Vec<(usize, usize)>,
    /// How many bands are decoded together with each one.
    pub decode_band_factor: usize,
    /// Original samples can be read, and not only normalized ones.
    pub typed: bool,
    /// The largest range of the transport of a remote source.
    pub range_bound: Option<usize>,
    pub pixel_admission: Option<PixelAdmission>,
    pub extra_encoded_cache_bytes: usize,
}

/// Rows of one decoding step.
pub open spec fn step_rows(width: int, height: int) -> int {
    let rows = STEP_CELLS / (width as usize);
    min_of(if rows > 1 { rows as int } else { 1 }, height)
}

fn rows_of(width: usize, height: usize) -> (r: usize)
    requires
        width > 0,
    ensures
        r == step_rows(width as int, height as int),
{
    let rows: usize = STEP_CELLS / width;
    let rows: usize = if rows > 1 { rows } else { 1 };
    if rows <= height {
        rows
    } else {
        height
    }
}

/// Cells of all blocks that a step of this shape can touch, wherever it lies.
pub open spec fn touched(width: int, height: int, block: (usize, usize)) -> int {
    (ceil_div(width, block.0 as int) + 1) * (ceil_div(
        min_of(height, step_rows(width, height)),
        block.1 as int,
    ) + 1) * block.0 * block.1
}

proof fn lemma_grows(a: int, b: int)
    requires
        0 <= a,
        1 <= b,
    ensures
        a <= a * b,
{
    assert(a <= a * b) by (nonlinear_arith)
        requires
            0 <= a,
            1 <= b,
    ;
}

/// The number of cells that a step can touch, where it fits.
fn touched_cells(width: usize, height: usize, block: (usize, usize)) -> (r: Option<usize>)
    requires
        width > 0,
        block.0 > 0,
        block.1 > 0,
    ensures
        r is Some == (touched(width as int, height as int, block) <= usize::MAX),
        r is Some ==> r->0 == touched(width as int, height as int, block),
        touched(width as int, height as int, block) >= 1,
{
    let rows: usize = rows_of(width, height);
    let rows: usize = if height <= rows { height } else { rows };
    let across: usize = div_ceil(width, block.0);
    let down: usize = div_ceil(rows, block.1);
    let ghost a = across + 1;
    let ghost d = down + 1;
    let ghost bw = block.0 as int;
    let ghost bh = block.1 as int;
    proof {
        lemma_grows(a, d);
        lemma_grows(d, a);
        assert(a * d == d * a) by (nonlinear_arith);
        lemma_grows(a * d, bw);
        lemma_grows(a * d * bw, bh);
    }
    let across: usize = match across.checked_add(1) {
        Some(n) => n,
        None => return None,
    };
    let down: usize = match down.checked_add(1) {
        Some(n) => n,
        None => return None,
    };
    let blocks: usize = match across.checked_mul(down) {
        Some(n) => n,
        None => return None,
    };
    let columns: usize = match blocks.checked_mul(block.0) {
        Some(n) => n,
        None => return None,
    };
    columns.checked_mul(block.1)
}

impl SourceAdapter {
    /// What opening a source establishes.
    pub open spec fn sound(&self) -> bool {
        &&& self.mask_blocks@.len() == self.blocks@.len()
        &&& forall|i: int|
            0 <= i < self.mask_blocks@.len() ==> (#[trigger] self.mask_blocks@[i]).0 > 0
                && self.mask_blocks@[i].1 > 0
        &&& self.decode_band_factor >= 1
        &&& self.range_bound is Some ==> self.range_bound->0 <= 4 * 1024 * 1024
        &&& self.extra_encoded_cache_bytes <= 8 * 1024 * 1024
        &&& self.pixel_admission is Some ==> {
            let p = self.pixel_admission->0;
            &&& 0 < p.width <= 512
            &&& 0 < p.height <= 512
            &&& p.bands <= 64
            &&& p.encoded <= MAX_ENCODED_BLOCK
        }
    }

    /// What the transport of a remote source needs for one read.
    pub open spec fn transport(&self) -> int {
        if self.range_bound is Some {
            self.range_bound->0 + TRANSPORT_SCRATCH
        } else {
            0
        }
    }

    fn transport_bytes(&self) -> (r: usize)
        requires
            self.sound(),
        ensures
            r == self.transport(),
    {
        match self.range_bound {
            Some(n) => n + TRANSPORT_SCRATCH,
            None => 0,
        }
    }

    /// The decoded blocks of one band and of those decoded with it: a value and a flag for
    /// each cell.
    pub open spec fn decoded_of(&self, band: usize, width: int, height: int) -> int {
        touched(width, height, self.blocks@[band as int]) * 9 * self.decode_band_factor
    }

    /// Why the blocks of one band have no bound, if they have none.
    pub open spec fn block_refusal(&self, band: usize, width: int, height: int) -> Option<Error> {
        if band >= self.blocks@.len() {
            Some(Error::AdapterBand)
        } else if self.blocks@[band as int].0 == 0 || self.blocks@[band as int].1 == 0 {
            Some(Error::AdapterBlock)
        } else if self.decoded_of(band, width, height) > usize::MAX {
            Some(Error::AdapterBlockBound)
        } else {
            None
        }
    }

    /// The decoded blocks of the first `k` selected bands: all together, or, where every band
    /// is decoded with each, those of the largest.
    pub open spec fn data_bound(&self, width: int, height: int, bands: Seq<usize>, k: nat) -> Result<
        int,
        Error,
    >
        decreases k,
    {
        if k == 0 {
            Ok(0)
        } else {
            match self.data_bound(width, height, bands, (k - 1) as nat) {
                Err(e) => Err(e),
                Ok(before) => match self.block_refusal(bands[k - 1], width, height) {
                    Some(e) => Err(e),
                    None => {
                        let more = self.decoded_of(bands[k - 1], width, height);
                        if self.decode_band_factor != 1 {
                            Ok(
                                if more > before {
                                    more
                                } else {
                                    before
                                },
                            )
                        } else if before + more > usize::MAX {
                            Err(Error::AdapterSelectedBound)
                        } else {
                            Ok(before + more)
                        }
                    },
                },
            }
        }
    }

    /// `data` and the masks of the first `k` selected bands.
    pub open spec fn mask_bound(
        &self,
        width: int,
        height: int,
        bands: Seq<usize>,
        data: int,
        k: nat,
    ) -> Result<int, Error>
        decreases k,
    {
        if k == 0 {
            Ok(data)
        } else {
            match self.mask_bound(width, height, bands, data, (k - 1) as nat) {
                Err(e) => Err(e),
                Ok(before) => {
                    let more = touched(width, height, self.mask_blocks@[bands[k - 1] as int]);
                    if more > usize::MAX {
                        Err(Error::AdapterMaskBound)
                    } else if before + more > usize::MAX {
                        Err(Error::AdapterMaskTotal)
                    } else {
                        Ok(before + more)
                    }
                },
            }
        }
    }

    /// The memory of a read of these bands. `base` is what its output needs.
    pub open spec fn read_bound(
        &self,
        width: int,
        height: int,
        bands: Seq<usize>,
        max_bands: int,
        base: Result<usize, Error>,
    ) -> Result<int, Error> {
        if !(0 < bands.len() <= max_bands) {
            Err(Error::AdapterBands)
        } else {
            match base {
                Err(e) => Err(e),
                Ok(base) => match self.data_bound(width, height, bands, bands.len()) {
                    Err(e) => Err(e),
                    Ok(data) => match self.mask_bound(width, height, bands, data, bands.len()) {
                        Err(e) => Err(e),
                        Ok(decoded) => if base + decoded + self.transport() > usize::MAX {
                            Err(Error::AdapterBuffer)
                        } else {
                            Ok(base + decoded + self.transport())
                        },
                    },
                },
            }
        }
    }

    proof fn lemma_data_stays(&self, width: int, height: int, bands: Seq<usize>, k: nat, n: nat)
        requires
            k <= n,
            self.data_bound(width, height, bands, k) is Err,
        ensures
            self.data_bound(width, height, bands, n) == self.data_bound(width, height, bands, k),
        decreases n - k,
    {
        if k < n {
            self.lemma_data_stays(width, height, bands, k, (n - 1) as nat);
        }
    }

    proof fn lemma_mask_stays(
        &self,
        width: int,
        height: int,
        bands: Seq<usize>,
        data: int,
        k: nat,
        n: nat,
    )
        requires
            k <= n,
            self.mask_bound(width, height, bands, data, k) is Err,
        ensures
            self.mask_bound(width, height, bands, data, n) == self.mask_bound(
                width,
                height,
                bands,
                data,
                k,
            ),
        decreases n - k,
    {
        if k < n {
            self.lemma_mask_stays(width, height, bands, data, k, (n - 1) as nat);
        }
    }

    fn data_bytes(&self, width: usize, height: usize, bands: &[usize]) -> (r: Result<usize, Error>)
        requires
            self.sound(),
            width > 0,
        ensures
            match self.data_bound(width as int, height as int, bands@, bands@.len()) {
                Ok(n) => r is Ok && r->Ok_0 == n && (forall|i: int|
                    0 <= i < bands@.len() ==> (#[trigger] bands@[i]) < self.blocks@.len()),
                Err(e) => r == Err::<usize, Error>(e),
            },
    {
        let mut decoded: usize = 0;
        let mut i: usize = 0;
        while i < bands.len()
            invariant
                i <= bands@.len(),
                self.sound(),
                width > 0,
                self.data_bound(width as int, height as int, bands@, i as nat) == Ok::<int, Error>(
                    decoded as int,
                ),
                forall|k: int| 0 <= k < i ==> (#[trigger] bands@[k]) < self.blocks@.len(),
            decreases bands@.len() - i,
        {
            let ghost before = decoded as int;
            let band: usize = bands[i];
            let ghost w = width as int;
            let ghost h = height as int;
            let ghost next = (i + 1) as nat;
            if band >= self.blocks.len() {
                proof {
                    self.lemma_data_stays(w, h, bands@, next, bands@.len());
                }
                return Err(Error::AdapterBand);
            }
            let block: (usize, usize) = self.blocks[band];
            if block.0 == 0 || block.1 == 0 {
                proof {
                    self.lemma_data_stays(w, h, bands@, next, bands@.len());
                }
                return Err(Error::AdapterBlock);
            }
            let more: Option<usize> = match touched_cells(width, height, block) {
                Some(cells) => match cells.checked_mul(9) {
                    Some(bytes) => bytes.checked_mul(self.decode_band_factor),
                    None => None,
                },
                None => None,
            };
            proof {
                let cells = touched(w, h, block);
                lemma_grows(cells * 9, self.decode_band_factor as int);
                assert(more is None == (self.decoded_of(band, w, h) > usize::MAX));
                if more is None {
                    self.lemma_data_stays(w, h, bands@, next, bands@.len());
                }
            }
            let more: usize = match more {
                Some(n) => n,
                None => return Err(Error::AdapterBlockBound),
            };
            if self.decode_band_factor == 1 {
                decoded = match decoded.checked_add(more) {
                    Some(n) => n,
                    None => {
                        proof {
                            self.lemma_data_stays(w, h, bands@, next, bands@.len());
                        }
                        return Err(Error::AdapterSelectedBound);
                    },
                };
            } else if more > decoded {
                decoded = more;
            }
            i += 1;
        }
        Ok(decoded)
    }

    fn mask_bytes(&self, width: usize, height: usize, bands: &[usize], data: usize) -> (r: Result<
        usize,
        Error,
    >)
        requires
            self.sound(),
            width > 0,
            forall|i: int| 0 <= i < bands@.len() ==> (#[trigger] bands@[i]) < self.blocks@.len(),
        ensures
            match self.mask_bound(
                width as int,
                height as int,
                bands@,
                data as int,
                bands@.len(),
            ) {
                Ok(n) => r is Ok && r->Ok_0 == n,
                Err(e) => r == Err::<usize, Error>(e),
            },
    {
        let mut decoded: usize = data;
        let mut i: usize = 0;
        while i < bands.len()
            invariant
                i <= bands@.len(),
                self.sound(),
                width > 0,
                forall|k: int|
                    0 <= k < bands@.len() ==> (#[trigger] bands@[k]) < self.blocks@.len(),
                self.mask_bound(width as int, height as int, bands@, data as int, i as nat)
                    == Ok::<int, Error>(decoded as int),
            decreases bands@.len() - i,
        {
            let ghost w = width as int;
            let ghost h = height as int;
            let ghost next = (i + 1) as nat;
            let band: usize = bands[i];
            let block: (usize, usize) = self.mask_blocks[band];
            assert(self.mask_blocks@[band as int].0 > 0);
            let more: usize = match touched_cells(width, height, block) {
                Some(n) => n,
                None => {
                    proof {
                        self.lemma_mask_stays(w, h, bands@, data as int, next, bands@.len());
                    }
                    return Err(Error::AdapterMaskBound);
                },
            };
            decoded = match decoded.checked_add(more) {
                Some(n) => n,
                None => {
                    proof {
                        self.lemma_mask_stays(w, h, bands@, data as int, next, bands@.len());
                    }
                    return Err(Error::AdapterMaskTotal);
                },
            };
            i += 1;
        }
        Ok(decoded)
    }

    /// The memory that a read of at most `max_bands` bands needs. Mask storage can have
    /// another footprint than data storage: it is counted for itself even where a shared mask
    /// is reused.
    pub fn bounded_read_buffer(
        &self,
        width: usize,
        height: usize,
        bands: &[usize],
        max_bands: usize,
        base: Result<usize, Error>,
    ) -> (r: Result<usize, Error>)
        requires
            self.sound(),
            width > 0,
        ensures
            match self.read_bound(width as int, height as int, bands@, max_bands as int, base) {
                Ok(n) => r is Ok && r->Ok_0 == n,
                Err(e) => r == Err::<usize, Error>(e),
            },
    {
        if bands.len() == 0 || bands.len() > max_bands {
            return Err(Error::AdapterBands);
        }
        let base: usize = match base {
            Ok(n) => n,
            Err(e) => return Err(e),
        };
        let data: usize = match self.data_bytes(width, height, bands) {
            Ok(n) => n,
            Err(e) => return Err(e),
        };
        let decoded: usize = match self.mask_bytes(width, height, bands, data) {
            Ok(n) => n,
            Err(e) => return Err(e),
        };
        let transport: usize = self.transport_bytes();
        let total: usize = match base.checked_add(decoded) {
            Some(n) => n,
            None => return Err(Error::AdapterBuffer),
        };
        match total.checked_add(transport) {
            Some(n) => Ok(n),
            None => Err(Error::AdapterBuffer),
        }
    }
}

impl SourceAdapter {
    /// The most bands of one read of original samples: all of a qualified source, whose
    /// footprint already counts every band, and otherwise as many as a normalized read.
    pub open spec fn raw_bands(&self) -> int {
        if self.pixel_admission is Some {
            64
        } else {
            20
        }
    }

    pub fn max_raw_read_bands(&self) -> (r: usize)
        ensures
            r == self.raw_bands(),
    {
        if self.pixel_admission.is_some() {
            64
        } else {
            20
        }
    }

    /// The memory of a read of original samples, wherever its window lies: that of a
    /// normalized read, and one aligned buffer for a step.
    pub open spec fn raw_bound(
        &self,
        width: int,
        height: int,
        bands: Seq<usize>,
        base: Result<usize, Error>,
    ) -> Result<int, Error> {
        if !self.typed {
            Err(Error::RawAccess)
        } else if !(0 < bands.len() <= self.raw_bands() && bands.no_duplicates()) {
            Err(Error::RawBandGroup)
        } else {
            match self.read_bound(width, height, bands, self.raw_bands(), base) {
                Err(e) => Err(e),
                Ok(n) => if width * step_rows(width, height) * 8 > usize::MAX {
                    Err(Error::RawScratch)
                } else if n + width * step_rows(width, height) * 8 > usize::MAX {
                    Err(Error::RawBufferBound)
                } else {
                    Ok(n + width * step_rows(width, height) * 8)
                },
            }
        }
    }

    /// The memory that a read of original samples needs, wherever its window lies.
    pub fn raw_read_buffer_bound(
        &self,
        width: usize,
        height: usize,
        bands: &[usize],
        base: Result<usize, Error>,
    ) -> (r: Result<usize, Error>)
        requires
            self.sound(),
            width > 0,
        ensures
            match self.raw_bound(width as int, height as int, bands@, base) {
                Ok(n) => r is Ok && r->Ok_0 == n,
                Err(e) => r == Err::<usize, Error>(e),
            },
    {
        if !self.typed {
            return Err(Error::RawAccess);
        }
        let most: usize = self.max_raw_read_bands();
        if bands.len() == 0 || bands.len() > most || !distinct(bands) {
            return Err(Error::RawBandGroup);
        }
        let n: usize = match self.bounded_read_buffer(width, height, bands, most, base) {
            Ok(n) => n,
            Err(e) => return Err(e),
        };
        let rows: usize = rows_of(width, height);
        proof {
            assert(0 <= width * rows) by (nonlinear_arith);
        }
        let cells: usize = match width.checked_mul(rows) {
            Some(cells) => cells,
            None => return Err(Error::RawScratch),
        };
        let scratch: usize = match cells.checked_mul(8) {
            Some(bytes) => bytes,
            None => return Err(Error::RawScratch),
        };
        match n.checked_add(scratch) {
            Some(total) => Ok(total),
            None => Err(Error::RawBufferBound),
        }
    }

    /// The window is not empty and lies in the raster.
    pub open spec fn holds(&self, x: int, y: int, width: int, height: int) -> bool {
        &&& width > 0
        &&& height > 0
        &&& x + width <= self.width
        &&& y + height <= self.height
    }

    fn window_inside(&self, x: usize, y: usize, width: usize, height: usize) -> (r: bool)
        ensures
            r == self.holds(x as int, y as int, width as int, height as int),
    {
        width > 0 && height > 0 && width <= self.width && x <= self.width - width && height
            <= self.height && y <= self.height - height
    }

    /// The window lies in one tile of a qualified source, and in one step.
    pub open spec fn in_one_tile(&self, x: int, y: int, width: int, height: int) -> bool {
        let p = self.pixel_admission->0;
        &&& x / p.width as int == (x + width - 1) / p.width as int
        &&& y / p.height as int == (y + height - 1) / p.height as int
        &&& width * height <= STEP_CELLS
    }

    /// The memory of decoding one tile of a qualified source with every band: eight bytes a
    /// sample and one for its mask, four for the source of a mask, two encoded tiles, as an
    /// allocation may have to grow, and the codec.
    pub open spec fn tile_bytes(&self) -> int {
        let p = self.pixel_admission->0;
        p.width * p.height * (9 * p.bands + 4) + 2 * p.encoded + PIXEL_CODEC_RESERVE
    }

    /// The memory of a read of original samples of this window.
    pub open spec fn raw_bound_at(
        &self,
        x: int,
        y: int,
        width: int,
        height: int,
        bands: Seq<usize>,
        base: Result<usize, Error>,
    ) -> Result<int, Error> {
        match self.raw_bound(width, height, bands, base) {
            Err(e) => Err(e),
            Ok(anywhere) => if self.pixel_admission is None {
                Ok(anywhere)
            } else if !self.holds(x, y, width, height) {
                Err(Error::RawOutside)
            } else if !self.in_one_tile(x, y, width, height) {
                Ok(anywhere)
            } else {
                Ok(
                    width * height * (5 * bands.len() as int + 4) + self.tile_bytes()
                        + self.transport(),
                )
            },
        }
    }

    fn tile_memory(&self, p: PixelAdmission) -> (r: usize)
        requires
            self.sound(),
            self.pixel_admission == Some(p),
        ensures
            r == self.tile_bytes(),
            r < 300000000,
    {
        proof {
            let tile = p.width * p.height;
            let each = 9 * p.bands + 4;
            assert(0 <= tile <= 512 * 512) by (nonlinear_arith)
                requires
                    tile == p.width * p.height,
                    p.width <= 512,
                    p.height <= 512,
            ;
            assert(0 <= tile * each <= 512 * 512 * 580) by (nonlinear_arith)
                requires
                    0 <= tile <= 512 * 512,
                    0 <= each <= 580,
            ;
        }
        let tile: usize = p.width * p.height;
        tile * (9 * p.bands + 4) + 2 * p.encoded + PIXEL_CODEC_RESERVE
    }

    /// The memory that a read of original samples of this window needs. A window in one tile
    /// of a qualified source has a bound of its own.
    pub fn raw_read_buffer_bound_at(
        &self,
        x: usize,
        y: usize,
        width: usize,
        height: usize,
        bands: &[usize],
        base: Result<usize, Error>,
    ) -> (r: Result<usize, Error>)
        requires
            self.sound(),
            width > 0,
        ensures
            match self.raw_bound_at(
                x as int,
                y as int,
                width as int,
                height as int,
                bands@,
                base,
            ) {
                Ok(n) => r is Ok && r->Ok_0 == n,
                Err(e) => r == Err::<usize, Error>(e),
            },
    {
        let anywhere: usize = match self.raw_read_buffer_bound(width, height, bands, base) {
            Ok(n) => n,
            Err(e) => return Err(e),
        };
        let p: PixelAdmission = match self.pixel_admission {
            Some(p) => p,
            None => return Ok(anywhere),
        };
        if !self.window_inside(x, y, width, height) {
            return Err(Error::RawOutside);
        }
        if x / p.width != (x + (width - 1)) / p.width || y / p.height != (y + (height - 1))
            / p.height {
            return Ok(anywhere);
        }
        let cells: usize = match width.checked_mul(height) {
            Some(cells) => cells,
            None => return Ok(anywhere),
        };
        if cells > STEP_CELLS {
            return Ok(anywhere);
        }
        let count: usize = bands.len();
        proof {
            assert(0 <= cells * (5 * count + 4) <= 65536 * 324) by (nonlinear_arith)
                requires
                    0 <= cells <= 65536,
                    0 <= count <= 64,
            ;
        }
        let window: usize = cells * (5 * count + 4);
        Ok(window + self.tile_memory(p) + self.transport_bytes())
    }

    /// What an open source keeps in memory.
    pub open spec fn retained(&self) -> int {
        NATIVE_SOURCE_RETAINED_BYTES + self.extra_encoded_cache_bytes + if self.pixel_admission
            is Some {
            self.pixel_admission->0.encoded + PIXEL_CODEC_RESERVE
        } else {
            0
        }
    }

    pub fn retained_memory_bound(&self) -> (r: usize)
        requires
            self.sound(),
        ensures
            r == self.retained(),
    {
        let qualified: usize = match self.pixel_admission {
            Some(p) => p.encoded + PIXEL_CODEC_RESERVE,
            None => 0,
        };
        NATIVE_SOURCE_RETAINED_BYTES + self.extra_encoded_cache_bytes + qualified
    }

    /// How many cells of three bands of four bytes a window of a qualified source can have
    /// within a working memory of 128 MiB: 34 bytes a cell besides the tile, the transport
    /// and 16 MiB of control with 64 KiB of headroom.
    pub fn safe_cells(&self) -> (r: Option<usize>)
        requires
            self.sound(),
        ensures
            r is Some == self.pixel_admission is Some,
            r is Some ==> {
                let rest = 134217728 - (self.tile_bytes() + self.transport() + 16777216 + 65536);
                r->0 == min_of(
                    if rest > 0 {
                        rest / 34
                    } else {
                        0
                    },
                    STEP_CELLS as int,
                )
            },
    {
        match self.pixel_admission {
            None => None,
            Some(p) => {
                let used: usize = self.tile_memory(p) + self.transport_bytes() + 16777216 + 65536;
                if used >= 134217728 {
                    return Some(0);
                }
                let cells: usize = (134217728 - used) / 34;
                Some(
                    if cells <= STEP_CELLS {
                        cells
                    } else {
                        STEP_CELLS
                    },
                )
            },
        }
    }

    /// Refuse a read that does not fit, before anything is read: `typed` tells a read of
    /// original samples from a normalized one.
    pub fn admit_read<C: Cancel>(
        &self,
        bound: Result<usize, Error>,
        typed: bool,
        max_bytes: usize,
        cancel: &C,
    ) -> (r: Result<(), Error>)
        ensures
            ended(
                cancel,
                r,
                r == (match bound {
                    Err(e) => Err::<(), Error>(e),
                    Ok(n) => if n > max_bytes {
                        Err(
                            if typed {
                                Error::RawWindowBudget
                            } else {
                                Error::SourceWindowBudget
                            },
                        )
                    } else {
                        Ok(())
                    },
                }),
            ) || (bound == Err::<usize, Error>(Error::Cancelled) && r is Err),
    {
        match check_cancel(cancel) {
            Ok(()) => {},
            Err(e) => return Err(e),
        }
        match bound {
            Err(e) => Err(e),
            Ok(n) => {
                if n <= max_bytes {
                    Ok(())
                } else if typed {
                    Err(Error::RawWindowBudget)
                } else {
                    Err(Error::SourceWindowBudget)
                }
            },
        }
    }
}

/// How many decoded bands each decoded block of a source brings along: all of them, unless a
/// TIFF stores its bands apart.
pub fn decode_band_factor(format: SourceFormat, interleave: &Option<String>, bands: usize) -> (r:
    usize)
    ensures
        r == (if format == SourceFormat::Geotiff && !is_text(*interleave, "BAND"@) {
            bands
        } else {
            1
        }),
{
    if format == SourceFormat::Geotiff && !is_word(interleave, "BAND") {
        bands
    } else {
        1
    }
}

/// What a remote source keeps of encoded data beyond the standard cache.
pub fn extra_encoded_cache_bytes(remote: bool, cache_bytes: usize) -> (r: usize)
    ensures
        r == (if remote && cache_bytes > 8388608 {
            cache_bytes - 8388608
        } else {
            0
        }),
{
    if remote && cache_bytes > 8388608 {
        cache_bytes - 8388608
    } else {
        0
    }
}

/// The most ranges that are fetched ahead of one read.
pub const MAX_DEMANDS: usize = 128;

/// What fetching ahead needs to know of a remote TIFF.
pub struct RemoteLayout {
    /// Ranges are fetched concurrently.
    pub concurrent: bool,
    pub driver: String,
    pub layout: Option<String>,
    pub version: String,
    pub bands: usize,
    pub interleave: Option<String>,
    pub cache_bytes: usize,
}

impl RemoteLayout {
    /// Blocks stand in the file by their bare offset and size. A cloud-optimized TIFF of
    /// interleaved bands frames its blocks, and is left to the reads of the driver.
    pub open spec fn fetches_ahead(&self) -> bool {
        &&& self.concurrent
        &&& self.driver@ == "GTiff"@
        &&& is_text(self.layout, "COG"@) ==> {
            &&& self.version@ == "3080400"@ || self.version@ == "3080500"@
            &&& self.bands > 1
            &&& is_text(self.interleave, "BAND"@)
        }
        &&& self.cache_bytes > 0
    }

    pub fn prepares(&self) -> (r: bool)
        ensures
            r == self.fetches_ahead(),
    {
        if !self.concurrent || !same(self.driver.as_str(), "GTiff") {
            return false;
        }
        if is_word(&self.layout, "COG") && !((same(self.version.as_str(), "3080400") || same(
            self.version.as_str(),
            "3080500",
        )) && self.bands > 1 && is_word(&self.interleave, "BAND")) {
            return false;
        }
        self.cache_bytes > 0
    }
}

/// Blocks that a window touches: the first and the last column, the first and the last row.
#[derive(Clone, Copy, Debug, PartialEq, Eq, Structural)]
pub struct BlockSpan {
    pub left: usize,
    pub right: usize,
    pub top: usize,
    pub bottom: usize,
}

/// The span of a window over blocks of this shape.
pub open spec fn span_of(
    x: int,
    y: int,
    width: int,
    height: int,
    block: (usize, usize),
) -> BlockSpan {
    BlockSpan {
        left: (x / block.0 as int) as usize,
        right: ((x + width - 1) / block.0 as int) as usize,
        top: (y / block.1 as int) as usize,
        bottom: ((y + height - 1) / block.1 as int) as usize,
    }
}

fn span(x: usize, y: usize, width: usize, height: usize, block: (usize, usize)) -> (r: BlockSpan)
    requires
        width > 0,
        height > 0,
        x + width <= usize::MAX,
        y + height <= usize::MAX,
        block.0 > 0,
        block.1 > 0,
    ensures
        r == span_of(x as int, y as int, width as int, height as int, block),
{
    BlockSpan {
        left: x / block.0,
        right: (x + width - 1) / block.0,
        top: y / block.1,
        bottom: (y + height - 1) / block.1,
    }
}

impl SourceAdapter {
    /// The blocks of one exposed band that a read of a window takes, each to be located.
    pub fn demanded(
        &self,
        x: usize,
        y: usize,
        width: usize,
        height: usize,
        band: usize,
    ) -> (r: Result<BlockSpan, Error>)
        ensures
            r == (if !self.holds(x as int, y as int, width as int, height as int) {
                Err::<BlockSpan, Error>(Error::WindowOutside)
            } else if band >= self.blocks@.len() {
                Err(Error::AdapterBand)
            } else if self.blocks@[band as int].0 == 0 || self.blocks@[band as int].1 == 0 {
                Err(Error::AdapterBlock)
            } else {
                Ok(
                    span_of(
                        x as int,
                        y as int,
                        width as int,
                        height as int,
                        self.blocks@[band as int],
                    ),
                )
            }),
    {
        if !self.window_inside(x, y, width, height) {
            return Err(Error::WindowOutside);
        }
        if band >= self.blocks.len() {
            return Err(Error::AdapterBand);
        }
        let block: (usize, usize) = self.blocks[band];
        if block.0 == 0 || block.1 == 0 {
            return Err(Error::AdapterBlock);
        }
        Ok(span(x, y, width, height, block))
    }
}

/// What becomes of a located block.
#[derive(Clone, Copy, Debug, PartialEq, Eq, Structural)]
pub enum Demand {
    /// Go on with the next block.
    Next,
    /// As many ranges as are fetched ahead.
    Full,
    /// Fetch nothing ahead.
    Nothing,
}

/// Ranges of blocks to be fetched ahead, each once, in the order of the file.
pub struct Demands {
    pub ranges: Vec<(u64, u64)>,
}

pub open spec fn range_before(a: (u64, u64), b: (u64, u64)) -> bool {
    a.0 < b.0 || a.0 == b.0 && a.1 < b.1
}

/// One range follows the other, each once.
pub open spec fn ordered(ranges: Seq<(u64, u64)>) -> bool {
    forall|i: int, j: int|
        0 <= i < j < ranges.len() ==> range_before(#[trigger] ranges[i], #[trigger] ranges[j])
}

/// No range begins before the one before it has ended.
pub open spec fn apart(ranges: Seq<(u64, u64)>) -> bool {
    forall|i: int|
        0 <= i < ranges.len() - 1 ==> (#[trigger] ranges[i]).0 + ranges[i].1 <= ranges[i + 1].0
}

impl Demands {
    pub fn new() -> (r: Demands)
        ensures
            r.ranges@.len() == 0,
            ordered(r.ranges@),
    {
        Demands { ranges: Vec::new() }
    }

    /// Take a located block. A block without a place, or too large for one range, ends
    /// fetching ahead; a sparse block has nothing to fetch.
    pub fn offer(&mut self, offset: Option<u64>, length: Option<u64>, range_bound: usize) -> (r:
        Demand)
        requires
            ordered(old(self).ranges@),
            old(self).ranges@.len() < MAX_DEMANDS,
        ensures
            ordered(final(self).ranges@),
            final(self).ranges@.len() <= MAX_DEMANDS,
            if offset is None || length is None {
                r == Demand::Nothing && final(self).ranges@ == old(self).ranges@
            } else if offset->0 == 0 || length->0 == 0 {
                r == Demand::Next && final(self).ranges@ == old(self).ranges@
            } else if length->0 > range_bound {
                r == Demand::Nothing && final(self).ranges@ == old(self).ranges@
            } else {
                &&& forall|v: (u64, u64)| #[trigger] final(self).ranges@.contains(v) == (old(self).ranges@.contains(v) || v == (offset->0, length->0))
                &&& final(self).ranges@.len() == old(self).ranges@.len() + if old(self).ranges@.contains((offset->0, length->0)) {
                    0int
                } else {
                    1
                }
                &&& r == (if final(self).ranges@.len() == MAX_DEMANDS {
                    Demand::Full
                } else {
                    Demand::Next
                })
            },
    {
        let (offset, length): (u64, u64) = match (offset, length) {
            (Some(offset), Some(length)) => (offset, length),
            _ => return Demand::Nothing,
        };
        if offset == 0 || length == 0 {
            return Demand::Next;
        }
        if length > range_bound as u64 {
            return Demand::Nothing;
        }
        let ghost before = self.ranges@;
        let ghost new = (offset, length);
        let mut at: usize = 0;
        while at < self.ranges.len() && (self.ranges[at].0 < offset || self.ranges[at].0 == offset
            && self.ranges[at].1 < length)
            invariant
                at <= self.ranges@.len(),
                self.ranges@ == before,
                new == (offset, length),
                forall|k: int| 0 <= k < at ==> range_before(#[trigger] before[k], new),
            decreases self.ranges@.len() - at,
        {
            at += 1;
        }
        if at < self.ranges.len() && self.ranges[at].0 == offset && self.ranges[at].1 == length {
            assert(before[at as int] == new);
            assert(before.contains(new));
            return Demand::Next;
        }
        proof {
            if before.contains(new) {
                let k = choose|k: int| 0 <= k < before.len() && before[k] == new;
                if k < at {
                    assert(range_before(before[k], new));
                } else if k > at {
                    assert(range_before(before[at as int], before[k]));
                }
            }
        }
        self.ranges.insert(at, (offset, length));
        proof {
            let after = self.ranges@;
            assert(after[at as int] == new);
            assert forall|i: int, j: int| 0 <= i < j < after.len() implies range_before(
                #[trigger] after[i],
                #[trigger] after[j],
            ) by {
                let bi = if i < at { i } else { i - 1 };
                let bj = if j < at { j } else { j - 1 };
                if i != at && j != at {
                    assert(after[i] == before[bi]);
                    assert(after[j] == before[bj]);
                    assert(range_before(before[bi], before[bj]));
                } else if i == at {
                    assert(after[j] == before[bj]);
                    if bj > at {
                        assert(range_before(before[at as int], before[bj]));
                    }
                } else {
                    assert(after[i] == before[bi]);
                }
            }
            assert forall|v: (u64, u64)| #[trigger] after.contains(v) == (before.contains(v) || v
                == new) by {
                if after.contains(v) {
                    let k = choose|k: int| 0 <= k < after.len() && after[k] == v;
                    if k < at {
                        assert(before[k] == v);
                    } else if k > at {
                        assert(before[k - 1] == v);
                    }
                }
                if before.contains(v) {
                    let k = choose|k: int| 0 <= k < before.len() && before[k] == v;
                    if k < at {
                        assert(after[k] == v);
                    } else {
                        assert(after[k + 1] == v);
                    }
                }
            }
        }
        if self.ranges.len() == MAX_DEMANDS {
            Demand::Full
        } else {
            Demand::Next
        }
    }

    /// The ranges to fetch ahead: none of them, where two overlap.
    pub fn finish(self) -> (r: Option<Vec<(u64, u64)>>)
        ensures
            r is Some == apart(self.ranges@),
            r is Some ==> r->0@ == self.ranges@,
    {
        let ranges: Vec<(u64, u64)> = self.ranges;
        let mut i: usize = 1;
        while i < ranges.len()
            invariant
                1 <= i,
                ranges@ == self.ranges@,
                i <= ranges@.len() || ranges@.len() == 0,
                forall|k: int|
                    0 <= k < i - 1 ==> (#[trigger] ranges@[k]).0 + ranges@[k].1 <= ranges@[k + 1].0,
            decreases ranges@.len() - i,
        {
            let before: (u64, u64) = ranges[i - 1];
            let end: u64 = match before.0.checked_add(before.1) {
                Some(end) => end,
                None => {
                    assert(ranges@[i - 1].0 + ranges@[i - 1].1 > ranges@[i - 1 + 1].0);
                    return None;
                },
            };
            if end > ranges[i].0 {
                assert(ranges@[i - 1].0 + ranges@[i - 1].1 > ranges@[i - 1 + 1].0);
                return None;
            }
            i += 1;
        }
        Some(ranges)
    }
}

/// Two arrangements of the same ranges in the order of the file are one: what is fetched ahead
/// does not depend on the order in which blocks were located.
pub proof fn demands_are_unique(a: Seq<(u64, u64)>, b: Seq<(u64, u64)>)
    requires
        ordered(a),
        ordered(b),
        forall|v: (u64, u64)| #[trigger] a.contains(v) == b.contains(v),
    ensures
        a == b,
    decreases a.len(),
{
    if a.len() == 0 {
        if b.len() > 0 {
            assert(b.contains(b[0]));
            assert(a.contains(b[0]));
        }
        assert(a =~= b);
    } else {
        assert(a.contains(a.last()));
        assert(b.contains(a.last()));
        assert(b.contains(b.last()));
        assert(a.contains(b.last()));
        let i = choose|i: int| 0 <= i < a.len() && a[i] == b.last();
        let j = choose|j: int| 0 <= j < b.len() && b[j] == a.last();
        if i < a.len() - 1 {
            assert(range_before(a[i], a[a.len() - 1]));
            if j < b.len() - 1 {
                assert(range_before(b[j], b[b.len() - 1]));
            }
        }
        assert(a.last() == b.last());
        let ra = a.drop_last();
        let rb = b.drop_last();
        assert forall|v: (u64, u64)| #[trigger] ra.contains(v) == rb.contains(v) by {
            if ra.contains(v) {
                let k = choose|k: int| 0 <= k < ra.len() && ra[k] == v;
                assert(a[k] == v);
                assert(range_before(a[k], a[a.len() - 1]));
                assert(a.contains(v));
                let m = choose|m: int| 0 <= m < b.len() && b[m] == v;
                assert(m < b.len() - 1);
                assert(rb[m] == v);
            }
            if rb.contains(v) {
                let k = choose|k: int| 0 <= k < rb.len() && rb[k] == v;
                assert(b[k] == v);
                assert(range_before(b[k], b[b.len() - 1]));
                assert(b.contains(v));
                assert(a.contains(v));
                let m = choose|m: int| 0 <= m < a.len() && a[m] == v;
                assert(m < a.len() - 1);
                assert(ra[m] == v);
            }
        }
        demands_are_unique(ra, rb);
        assert(a =~= ra.push(a.last()));
        assert(b =~= rb.push(b.last()));
    }
}

/// One step of a read: some rows of the window, all bands of them.
#[derive(Clone, Copy, Debug, PartialEq, Eq, Structural)]
pub struct Step {
    pub row: usize,
    pub rows: usize,
    /// Whether the decoder drops its blocks before the step.
    pub flush: bool,
}

/// A read of original samples in steps.
#[derive(Debug)]
pub struct RawRead {
    pub cells: usize,
    pub steps: Vec<Step>,
    /// How often the decoder drops its blocks, with the time behind the last step.
    pub flushes: usize,
    /// How many steps find the blocks of the step before.
    pub reused: usize,
}

/// The window of a read.
#[derive(Clone, Copy, Debug, PartialEq, Eq, Structural)]
pub struct ReadWindow {
    pub x: usize,
    pub y: usize,
    pub width: usize,
    pub height: usize,
}

impl ReadWindow {
    pub open spec fn step_height(&self) -> int {
        step_rows(self.width as int, self.height as int)
    }

    pub open spec fn step_count(&self) -> int {
        ceil_div(self.height as int, self.step_height())
    }

    /// First row of step `i`.
    pub open spec fn step_row(&self, i: int) -> int {
        i * self.step_height()
    }

    /// Rows of step `i`.
    pub open spec fn rows_in(&self, i: int) -> int {
        min_of(self.step_height(), self.height - self.step_row(i))
    }

    /// The blocks of this shape that step `i` touches.
    pub open spec fn step_span(&self, i: int, shape: (usize, usize)) -> BlockSpan {
        span_of(self.x as int, self.y + self.step_row(i), self.width as int, self.rows_in(i), shape)
    }

    /// Two steps touch the same blocks of every data and mask band.
    pub open spec fn same_blocks(&self, i: int, j: int, shapes: Seq<(usize, usize)>) -> bool {
        forall|k: int|
            0 <= k < shapes.len() ==> self.step_span(i, #[trigger] shapes[k]) == self.step_span(
                j,
                shapes[k],
            )
    }

    /// Blocks are dropped before step `i`.
    pub open spec fn drops(&self, i: int, shapes: Seq<(usize, usize)>) -> bool {
        i > 0 && shapes.len() > 0 && !self.same_blocks(i - 1, i, shapes)
    }

    /// Step `i` finds the blocks of the step before.
    pub open spec fn reuses(&self, i: int, shapes: Seq<(usize, usize)>) -> bool {
        i > 0 && shapes.len() > 0 && self.same_blocks(i - 1, i, shapes)
    }

    pub open spec fn dropped(&self, shapes: Seq<(usize, usize)>, k: nat) -> int
        decreases k,
    {
        if k == 0 {
            0
        } else {
            self.dropped(shapes, (k - 1) as nat) + if self.drops(k - 1, shapes) {
                1int
            } else {
                0
            }
        }
    }

    pub open spec fn reused(&self, shapes: Seq<(usize, usize)>, k: nat) -> int
        decreases k,
    {
        if k == 0 {
            0
        } else {
            self.reused(shapes, (k - 1) as nat) + if self.reuses(k - 1, shapes) {
                1int
            } else {
                0
            }
        }
    }

    pub open spec fn step(&self, i: int, shapes: Seq<(usize, usize)>) -> Step {
        Step {
            row: self.step_row(i) as usize,
            rows: self.rows_in(i) as usize,
            flush: self.drops(i, shapes),
        }
    }

    /// Why samples of the window are not read, if they are not.
    pub open spec fn refusal(
        &self,
        raster: (usize, usize),
        scalars: Seq<RawScalarType>,
        shapes: Seq<(usize, usize)>,
    ) -> Option<Error> {
        if !(self.width > 0 && self.height > 0 && self.x + self.width <= raster.0 && self.y
            + self.height <= raster.1) {
            Some(Error::RawOutside)
        } else if self.width * self.height > usize::MAX {
            Some(Error::RawSize)
        } else if exists|i: int|
            0 <= i < scalars.len() && self.width * self.height * (#[trigger] scalars[i]).width()
                > usize::MAX {
            Some(Error::RawBandSize)
        } else if exists|i: int|
            0 <= i < shapes.len() && ((#[trigger] shapes[i]).0 == 0 || shapes[i].1 == 0) {
            Some(Error::DecoderBlock)
        } else {
            None
        }
    }

    /// The read is what the window and the shapes of the blocks say.
    pub open spec fn read_as(&self, read: RawRead, shapes: Seq<(usize, usize)>) -> bool {
        &&& read.cells == self.width * self.height
        &&& read.steps@.len() == self.step_count()
        &&& forall|i: int|
            0 <= i < read.steps@.len() ==> #[trigger] read.steps@[i] == self.step(i, shapes)
        &&& read.flushes == 1 + self.dropped(shapes, read.steps@.len())
        &&& read.reused == self.reused(shapes, read.steps@.len())
    }

    proof fn lemma_step(&self, i: int)
        requires
            self.width > 0,
            self.height > 0,
            0 <= i < self.step_count(),
        ensures
            self.step_height() >= 1,
            0 <= self.step_row(i) < self.height,
            1 <= self.rows_in(i) <= self.height - self.step_row(i),
    {
        let s = self.step_height();
        lemma_ceil_div(self.height as int, s);
        assert(0 <= i * s) by (nonlinear_arith)
            requires
                0 <= i,
                1 <= s,
        ;
        assert(i * s < self.height);
    }

    fn same_step(
        &self,
        shapes: &[(usize, usize)],
        before: (usize, usize),
        now: (usize, usize),
        Ghost(i): Ghost<int>,
    ) -> (r: bool)
        requires
            self.width > 0,
            self.height > 0,
            self.x + self.width <= usize::MAX,
            self.y + self.height <= usize::MAX,
            forall|k: int|
                0 <= k < shapes@.len() ==> (#[trigger] shapes@[k]).0 > 0 && shapes@[k].1 > 0,
            1 <= i < self.step_count(),
            before.0 == self.step_row(i - 1),
            before.1 == self.rows_in(i - 1),
            now.0 == self.step_row(i),
            now.1 == self.rows_in(i),
        ensures
            r == self.same_blocks(i - 1, i, shapes@),
    {
        proof {
            self.lemma_step(i - 1);
            self.lemma_step(i);
        }
        let mut k: usize = 0;
        while k < shapes.len()
            invariant
                k <= shapes@.len(),
                self.width > 0,
                self.x + self.width <= usize::MAX,
                self.y + self.height <= usize::MAX,
                before.0 == self.step_row(i - 1),
                before.1 == self.rows_in(i - 1),
                now.0 == self.step_row(i),
                now.1 == self.rows_in(i),
                before.1 >= 1,
                now.1 >= 1,
                before.0 + before.1 <= self.height,
                now.0 + now.1 <= self.height,
                forall|m: int|
                    0 <= m < shapes@.len() ==> (#[trigger] shapes@[m]).0 > 0 && shapes@[m].1 > 0,
                forall|m: int|
                    0 <= m < k ==> self.step_span(i - 1, #[trigger] shapes@[m]) == self.step_span(
                        i,
                        shapes@[m],
                    ),
            decreases shapes@.len() - k,
        {
            let shape: (usize, usize) = shapes[k];
            assert(shapes@[k as int].0 > 0);
            let a: BlockSpan = span(self.x, self.y + before.0, self.width, before.1, shape);
            let b: BlockSpan = span(self.x, self.y + now.0, self.width, now.1, shape);
            if a != b {
                assert(self.step_span(i - 1, shapes@[k as int]) != self.step_span(
                    i,
                    shapes@[k as int],
                ));
                return false;
            }
            k += 1;
        }
        true
    }

    /// Lay a read of original samples out in steps. `scalars` are the sample types of the
    /// selected bands, `shapes` the blocks of their data and of their masks.
    pub fn plan<C: Cancel>(
        &self,
        raster: (usize, usize),
        scalars: &[RawScalarType],
        shapes: &[(usize, usize)],
        cancel: &C,
    ) -> (r: Result<RawRead, Error>)
        ensures
            ended(
                cancel,
                r,
                match self.refusal(raster, scalars@, shapes@) {
                    Some(e) => r == Err::<RawRead, Error>(e),
                    None => r is Ok && self.read_as(r->Ok_0, shapes@),
                },
            ),
    {
        match check_cancel(cancel) {
            Ok(()) => {},
            Err(e) => return Err(e),
        }
        if !(self.width > 0 && self.height > 0 && self.width <= raster.0 && self.x <= raster.0
            - self.width && self.height <= raster.1 && self.y <= raster.1 - self.height) {
            return Err(Error::RawOutside);
        }
        let cells: usize = match self.width.checked_mul(self.height) {
            Some(cells) => cells,
            None => return Err(Error::RawSize),
        };
        let mut i: usize = 0;
        while i < scalars.len()
            invariant
                i <= scalars@.len(),
                self.width > 0 && self.height > 0 && self.x + self.width <= raster.0 && self.y
                    + self.height <= raster.1,
                cells == self.width * self.height,
                forall|k: int|
                    0 <= k < i ==> self.width * self.height * (#[trigger] scalars@[k]).width()
                        <= usize::MAX,
            decreases scalars@.len() - i,
        {
            if cells.checked_mul(scalars[i].byte_width()).is_none() {
                assert(self.width * self.height * scalars@[i as int].width() > usize::MAX);
                return Err(Error::RawBandSize);
            }
            i += 1;
        }
        let mut i: usize = 0;
        while i < shapes.len()
            invariant
                i <= shapes@.len(),
                self.width > 0 && self.height > 0 && self.x + self.width <= raster.0 && self.y
                    + self.height <= raster.1,
                cells == self.width * self.height,
                forall|k: int|
                    0 <= k < scalars@.len() ==> self.width * self.height * (
                    #[trigger] scalars@[k]).width() <= usize::MAX,
                forall|k: int|
                    0 <= k < i ==> (#[trigger] shapes@[k]).0 > 0 && shapes@[k].1 > 0,
            decreases shapes@.len() - i,
        {
            if shapes[i].0 == 0 || shapes[i].1 == 0 {
                assert(shapes@[i as int].0 == 0 || shapes@[i as int].1 == 0);
                return Err(Error::DecoderBlock);
            }
            i += 1;
        }
        let height: usize = rows_of(self.width, self.height);
        let mut steps: Vec<Step> = Vec::new();
        let mut flushes: usize = 1;
        let mut reused: usize = 0;
        let mut row: usize = 0;
        proof {
            lemma_ceil_div(self.height as int, height as int);
            assert(0 * height == 0) by (nonlinear_arith);
        }
        while row < self.height
            invariant
                self.width > 0,
                self.height > 0,
                self.x + self.width <= usize::MAX,
                self.y + self.height <= usize::MAX,
                height == self.step_height(),
                height >= 1,
                height <= self.height,
                forall|k: int|
                    0 <= k < shapes@.len() ==> (#[trigger] shapes@[k]).0 > 0 && shapes@[k].1 > 0,
                steps@.len() <= self.step_count(),
                steps@.len() <= row,
                row <= self.height,
                row == self.step_row(steps@.len() as int) || (row == self.height && steps@.len()
                    == self.step_count()),
                forall|k: int|
                    0 <= k < steps@.len() ==> #[trigger] steps@[k] == self.step(k, shapes@),
                flushes == 1 + self.dropped(shapes@, steps@.len()),
                reused == self.reused(shapes@, steps@.len()),
                1 <= flushes,
                flushes + reused <= if steps@.len() == 0 {
                    1
                } else {
                    steps@.len() as int
                },
            decreases self.height - row,
        {
            match check_cancel(cancel) {
                Ok(()) => {},
                Err(e) => return Err(e),
            }
            let n: usize = steps.len();
            let ghost i = n as int;
            proof {
                lemma_ceil_div(self.height as int, height as int);
                assert(i * height < self.height);
                self.lemma_step(i);
                assert((i + 1) * height == i * height + height) by (nonlinear_arith);
                if i + 1 < self.step_count() {
                    assert((i + 1) * height < self.height);
                } else {
                    assert(!((i + 1) * height < self.height));
                }
            }
            let rows: usize = if height <= self.height - row {
                height
            } else {
                self.height - row
            };
            let mut flush: bool = false;
            if n > 0 && shapes.len() > 0 {
                let last: Step = steps[n - 1];
                proof {
                    self.lemma_step(i - 1);
                    assert(steps@[i - 1] == self.step(i - 1, shapes@));
                }
                if self.same_step(shapes, (last.row, last.rows), (row, rows), Ghost(i)) {
                    reused += 1;
                } else {
                    flush = true;
                    flushes += 1;
                }
            }
            steps.push(Step { row, rows, flush });
            row = row + rows;
        }
        proof {
            let n = steps@.len() as int;
            lemma_ceil_div(self.height as int, height as int);
            if n < self.step_count() {
                assert(n * height < self.height);
            }
        }
        Ok(RawRead { cells, steps, flushes, reused })
    }
}

/// The steps of a read take every row of the window once: each begins where the one before
/// has ended, and the last ends with the window.
pub proof fn steps_take_every_row(window: ReadWindow, i: int)
    requires
        window.width > 0,
        window.height > 0,
        0 <= i < window.step_count(),
    ensures
        window.step_row(0) == 0,
        window.step_row(i) + window.rows_in(i) == if i + 1 < window.step_count() {
            window.step_row(i + 1)
        } else {
            window.height as int
        },
        0 < window.rows_in(i),
        window.width * window.rows_in(i) <= STEP_CELLS || window.rows_in(i) == 1,
{
    let s = window.step_height();
    window.lemma_step(i);
    lemma_ceil_div(window.height as int, s);
    assert(0 * s == 0) by (nonlinear_arith);
    assert((i + 1) * s == i * s + s) by (nonlinear_arith);
    if i + 1 < window.step_count() {
        assert((i + 1) * s < window.height);
    } else {
        assert(!((i + 1) * s < window.height));
    }
    let rows = (STEP_CELLS / window.width) as int;
    let w = window.width as int;
    vstd::arithmetic::div_mod::lemma_fundamental_div_mod(STEP_CELLS as int, w);
    assert(w * rows <= STEP_CELLS);
    let n = window.rows_in(i);
    if rows > 1 {
        assert(n <= rows);
        assert(w * n <= w * rows) by (nonlinear_arith)
            requires
                n <= rows,
                0 < w,
        ;
    } else {
        assert(n <= 1);
    }
}

/// Bytes from `at` on are those of `part`; the others are unchanged.
pub open spec fn replaced(before: Seq<u8>, part: Seq<u8>, at: int) -> Seq<u8> {
    Seq::new(
        before.len(),
        |k: int|
            if at <= k < at + part.len() {
                part[k - at]
            } else {
                before[k]
            },
    )
}

fn copy_in<C: Cancel>(output: &mut Vec<u8>, part: &[u8], at: usize, cancel: &C) -> (r: Result<
    (),
    Error,
>)
    requires
        at + part@.len() <= old(output)@.len(),
    ensures
        final(output)@.len() == old(output)@.len(),
        r is Err ==> r == Err::<(), Error>(Error::Cancelled) && !cancel.never(),
        r is Ok ==> final(output)@ == replaced(old(output)@, part@, at as int),
{
    let have: usize = output.len();
    let mut i: usize = 0;
    while i < part.len()
        invariant
            i <= part@.len(),
            have == output@.len(),
            at + part@.len() <= output@.len(),
            output@.len() == old(output)@.len(),
            forall|k: int|
                0 <= k < output@.len() ==> #[trigger] output@[k] == (if at <= k < at + i {
                    part@[k - at]
                } else {
                    old(output)@[k]
                }),
        decreases part@.len() - i,
    {
        if i % 4096 == 0 {
            match check_cancel(cancel) {
                Ok(()) => {},
                Err(e) => return Err(e),
            }
        }
        output.set(at + i, part[i]);
        i += 1;
    }
    assert(output@ =~= replaced(old(output)@, part@, at as int));
    Ok(())
}

/// Put the samples and the mask of one step of one band in their place.
pub fn store_step<C: Cancel>(
    band: &mut RawBandWindow,
    kind: RawScalarType,
    width: usize,
    step: Step,
    samples: &[u8],
    mask: &[u8],
    cancel: &C,
) -> (r: Result<(), Error>)
    requires
        (step.row + step.rows) * width * kind.width() <= old(band).samples_le@.len(),
        (step.row + step.rows) * width <= old(band).mask@.len(),
        samples@.len() == step.rows * width * kind.width(),
        mask@.len() == step.rows * width,
    ensures
        final(band).samples_le@.len() == old(band).samples_le@.len(),
        final(band).mask@.len() == old(band).mask@.len(),
        r is Err ==> r == Err::<(), Error>(Error::Cancelled) && !cancel.never(),
        r is Ok ==> final(band).samples_le@ == replaced(
            old(band).samples_le@,
            samples@,
            step.row * width * kind.width(),
        ) && final(band).mask@ == replaced(old(band).mask@, mask@, step.row * width),
{
    let each: usize = kind.byte_width();
    let have: usize = band.samples_le.len();
    let masks: usize = band.mask.len();
    proof {
        let (a, b, w, e) = (step.row as int, step.rows as int, width as int, each as int);
        assert((a + b) * w * e == a * w * e + b * w * e) by (nonlinear_arith);
        assert((a + b) * w == a * w + b * w) by (nonlinear_arith);
        assert(0 <= a * w && 0 <= b * w) by (nonlinear_arith)
            requires
                0 <= a,
                0 <= b,
                0 <= w,
        ;
        assert(0 <= a * w * e && 0 <= b * w * e) by (nonlinear_arith)
            requires
                0 <= a * w,
                0 <= b * w,
                0 <= e,
        ;
    }
    let at: usize = step.row * width;
    match copy_in(&mut band.samples_le, samples, at * each, cancel) {
        Ok(()) => {},
        Err(e) => return Err(e),
    }
    copy_in(&mut band.mask, mask, at, cancel)
}

/// Which of the selected bands are prepared together before band `selected` is read: two at
/// a time, before the first of them.
pub fn prepared_together(selected: usize, bands: usize) -> (r: Option<(usize, usize)>)
    requires
        selected < bands,
    ensures
        r == (if selected % 2 == 0 {
            Some((selected, min_of(selected + 2, bands as int) as usize))
        } else {
            None
        }),
{
    if selected % 2 == 0 {
        Some(
            (
                selected,
                if bands - selected >= 2 {
                    selected + 2
                } else {
                    bands
                },
            ),
        )
    } else {
        None
    }
}

} // verus!
