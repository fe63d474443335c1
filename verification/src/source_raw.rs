//! Windows of original samples: how they become values, and what a reader must return.
use vstd::prelude::*;

use crate::bytes::{le, le_at};
use crate::cancel::{check_cancel, ended, Cancel};
use crate::error::Error;
use crate::index::lemma_row_major;
use crate::model::Grid;
use crate::skv_header::{finite_bits, is_finite_bits};
use crate::source::{
    Band, Raster, RawBandMetadata, RawBandWindow, RawRasterMetadata, RawWindow,
};
use crate::text::{byte_len, same, same_option, utf8};

verus! {

/// The most bytes of a unit.
pub const MAX_UNIT_BYTES: usize = 1024;

/// The existing 32 KiB reserve covers grid/identity and the first 20 band records.
/// Wider source windows additionally reserve each cloned unit string and band
/// record; this does not change any reader or query byte limit.
pub open spec fn overhead(bands: int) -> int {
    32768 + if bands > 20 {
        (bands - 20) * 2048
    } else {
        0
    }
}

pub fn source_window_overhead(bands: usize) -> (r: usize)
    requires
        overhead(bands as int) <= usize::MAX,
    ensures
        r == overhead(bands as int),
{
    if bands > 20 {
        32768 + (bands - 20) * 2048
    } else {
        32768
    }
}

/// A rule for samples that answers for every band, bit pattern and mask.
pub open spec fn answers<V, F: Fn(usize, u64, u8) -> (V, bool)>(rule: F) -> bool {
    forall|band: usize, bits: u64, mask: u8| #[trigger] call_requires(rule, (band, bits, mask))
}

/// The bits of sample `i`, least significant byte first.
pub open spec fn sample_bits(window: RawBandWindow, scalar: int, i: int) -> u64 {
    le(window.samples_le@.subrange(i * scalar, (i + 1) * scalar)) as u64
}

/// `band` holds what the rule makes of each sample of `window`.
pub open spec fn normalized_band<V, F: Fn(usize, u64, u8) -> (V, bool)>(
    rule: F,
    index: usize,
    info: RawBandMetadata,
    window: RawBandWindow,
    band: Band<V>,
) -> bool {
    &&& band.values@.len() == window.mask@.len()
    &&& band.valid@.len() == window.mask@.len()
    &&& forall|i: int|
        0 <= i < window.mask@.len() ==> call_ensures(
            rule,
            (index, sample_bits(window, info.scalar_type.width(), i), window.mask@[i]),
            (#[trigger] band.values@[i], band.valid@[i]),
        )
    &&& match (band.unit, info.unit) {
        (Some(a), Some(b)) => a@ == b@,
        (None, None) => true,
        _ => false,
    }
}

/// Why a band of samples has no values, if it has none.
pub open spec fn band_refusal(info: RawBandMetadata, window: RawBandWindow, cells: int) -> Option<
    Error,
> {
    if !(window.mask@.len() == cells && window.samples_le@.len() == cells
        * info.scalar_type.width()) {
        Some(Error::TypedLength)
    } else if !(finite_bits(info.scale_f64_bits) && finite_bits(info.offset_f64_bits)) {
        Some(Error::TypedScaling)
    } else {
        None
    }
}

/// The first refusal of the bands from `k` on.
pub open spec fn bands_refusal(
    metadata: RawRasterMetadata,
    windows: Seq<RawBandWindow>,
    indices: Seq<usize>,
    cells: int,
    k: int,
) -> Option<Error>
    decreases indices.len() - k,
{
    if k < 0 || k >= indices.len() {
        None
    } else if band_refusal(metadata.bands@[indices[k] as int], windows[k], cells) is Some {
        band_refusal(metadata.bands@[indices[k] as int], windows[k], cells)
    } else {
        bands_refusal(metadata, windows, indices, cells, k + 1)
    }
}

impl RawWindow {
    pub open spec fn cells(&self) -> int {
        self.width * self.height
    }

    /// What the values of this window take.
    pub open spec fn needed(&self, bands: int) -> int {
        self.cells() * bands * 9 + overhead(bands)
    }

    /// Why this window has no values, if it has none.
    pub open spec fn refusal(
        &self,
        metadata: RawRasterMetadata,
        grid: (int, int),
        described: int,
        x: int,
        y: int,
        indices: Seq<usize>,
        max_bytes: int,
    ) -> Option<Error> {
        if !(self.width > 0 && self.height > 0 && x + self.width <= grid.0 && y + self.height
            <= grid.1) {
            Some(Error::TypedWindow)
        } else if !(0 < indices.len() <= 64 && indices.len() == self.bands@.len() && forall|i: int|
            0 <= i < indices.len() ==> (#[trigger] indices[i]) < metadata.bands@.len() && indices[i]
                < described) {
            Some(Error::TypedBands)
        } else if self.cells() > usize::MAX {
            Some(Error::TypedSize)
        } else if self.needed(indices.len() as int) > usize::MAX {
            Some(Error::TypedBuffer)
        } else if self.needed(indices.len() as int) > max_bytes {
            Some(Error::TypedBudget)
        } else {
            bands_refusal(metadata, self.bands@, indices, self.cells(), 0)
        }
    }

    /// Normalize a bounded selected-band group under the ordinary source policy, which the
    /// caller gives as a rule on the bits and the mask of a sample of a band, and the move of the
    /// affine coefficients to the window's origin. `grid` is that of the source, and `described`
    /// counts its bands.
    /// `max_bytes` covers this method's new values and validity, not the borrowed
    /// raw input, which remains charged to its owner's separate read reservation.
    pub fn normalize<
        V,
        F: Fn(usize, u64, u8) -> (V, bool),
        S: Fn([u64; 6], usize, usize) -> [u64; 6],
        C: Cancel,
    >(
        &self,
        raw_metadata: &RawRasterMetadata,
        grid: &Grid,
        described: usize,
        source_id: &str,
        x: usize,
        y: usize,
        indices: &[usize],
        max_bytes: usize,
        rule: &F,
        shift: &S,
        cancel: &C,
    ) -> (r: Result<Raster<V>, Error>)
        requires
            answers::<V, F>(*rule),
            call_requires(*shift, (grid.transform_bits, x, y)),
        ensures
            ended(
                cancel,
                r,
                match self.refusal(
                    *raw_metadata,
                    (grid.width as int, grid.height as int),
                    described as int,
                    x as int,
                    y as int,
                    indices@,
                    max_bytes as int,
                ) {
                    Some(e) => r is Err && r->Err_0 == e,
                    None => {
                        &&& r matches Ok(raster)
                        &&& raster.grid.width == self.width
                        &&& raster.grid.height == self.height
                        &&& raster.grid.crs@ == grid.crs@
                        &&& call_ensures(
                            *shift,
                            (grid.transform_bits, x, y),
                            raster.grid.transform_bits,
                        )
                        &&& raster.source_id@ == source_id@
                        &&& raster.bands@.len() == indices@.len()
                        &&& forall|k: int|
                            0 <= k < indices@.len() ==> normalized_band(
                                *rule,
                                indices@[k],
                                raw_metadata.bands@[indices@[k] as int],
                                self.bands@[k],
                                #[trigger] raster.bands@[k],
                            )
                    },
                },
            ),
    {
        check_cancel(cancel)?;
        let inside = self.width > 0 && self.height > 0 && match x.checked_add(self.width) {
            Some(n) => n <= grid.width,
            None => false,
        } && match y.checked_add(self.height) {
            Some(n) => n <= grid.height,
            None => false,
        };
        if !inside {
            return Err(Error::TypedWindow);
        }
        let n: usize = indices.len();
        if !(n > 0 && n <= 64 && n == self.bands.len()) {
            return Err(Error::TypedBands);
        }
        let mut i: usize = 0;
        while i < n
            invariant
                i <= n,
                n == indices@.len(),
                0 < n <= 64,
                n == self.bands@.len(),
                self.width > 0,
                self.height > 0,
                x + self.width <= grid.width,
                y + self.height <= grid.height,
                forall|k: int|
                    0 <= k < i ==> (#[trigger] indices@[k]) < raw_metadata.bands@.len()
                        && indices@[k] < described,
            decreases n - i,
        {
            if !(indices[i] < raw_metadata.bands.len() && indices[i] < described) {
                assert(!(indices@[i as int] < raw_metadata.bands@.len() && indices@[i as int]
                    < described));
                return Err(Error::TypedBands);
            }
            i += 1;
        }
        let cells: usize = match self.width.checked_mul(self.height) {
            Some(cells) => cells,
            None => return Err(Error::TypedSize),
        };
        let ghost c = cells as int;
        let needed: usize = match cells.checked_mul(n) {
            None => {
                proof {
                    assert(c * n * 9 >= c * n) by (nonlinear_arith)
                        requires
                            c >= 0,
                            n >= 0,
                    ;
                }
                return Err(Error::TypedBuffer);
            },
            Some(samples) => match samples.checked_mul(9) {
                None => return Err(Error::TypedBuffer),
                Some(bytes) => match bytes.checked_add(source_window_overhead(n)) {
                    None => return Err(Error::TypedBuffer),
                    Some(needed) => needed,
                },
            },
        };
        if needed > max_bytes {
            return Err(Error::TypedBudget);
        }
        proof {
            assert(c * 8 <= c * n * 9) by (nonlinear_arith)
                requires
                    c >= 0,
                    n >= 1,
            ;
        }
        let mut bands: Vec<Band<V>> = Vec::new();
        let mut k: usize = 0;
        while k < n
            invariant
                k <= n,
                n == indices@.len(),
                n == self.bands@.len(),
                c == cells,
                cells == self.cells(),
                c * 8 <= usize::MAX,
                answers::<V, F>(*rule),
                forall|i: int|
                    0 <= i < n ==> (#[trigger] indices@[i]) < raw_metadata.bands@.len(),
                bands_refusal(*raw_metadata, self.bands@, indices@, c, 0) == bands_refusal(
                    *raw_metadata,
                    self.bands@,
                    indices@,
                    c,
                    k as int,
                ),
                self.refusal(
                    *raw_metadata,
                    (grid.width as int, grid.height as int),
                    described as int,
                    x as int,
                    y as int,
                    indices@,
                    max_bytes as int,
                ) == bands_refusal(*raw_metadata, self.bands@, indices@, c, 0),
                bands@.len() == k,
                !cancel.always(),
                forall|i: int|
                    0 <= i < k ==> normalized_band(
                        *rule,
                        indices@[i],
                        raw_metadata.bands@[indices@[i] as int],
                        self.bands@[i],
                        #[trigger] bands@[i],
                    ),
            decreases n - k,
        {
            let index: usize = indices[k];
            let band = normalize_band(
                &self.bands[k],
                &raw_metadata.bands[index],
                index,
                cells,
                rule,
                cancel,
            )?;
            bands.push(band);
            k += 1;
        }
        let moved = Grid {
            width: self.width,
            height: self.height,
            transform_bits: shift(grid.transform_bits, x, y),
            crs: grid.crs.clone(),
        };
        check_cancel(cancel)?;
        Ok(Raster { grid: moved, bands, source_id: source_id.to_owned() })
    }
}

fn normalize_band<V, F: Fn(usize, u64, u8) -> (V, bool), C: Cancel>(
    window: &RawBandWindow,
    info: &RawBandMetadata,
    index: usize,
    cells: usize,
    rule: &F,
    cancel: &C,
) -> (r: Result<Band<V>, Error>)
    requires
        answers::<V, F>(*rule),
        cells * 8 <= usize::MAX,
    ensures
        r == Err::<Band<V>, Error>(Error::Cancelled) ==> !cancel.never(),
        r != Err::<Band<V>, Error>(Error::Cancelled) ==> match band_refusal(
            *info,
            *window,
            cells as int,
        ) {
            Some(e) => r is Err && r->Err_0 == e,
            None => r matches Ok(band) && normalized_band(*rule, index, *info, *window, band),
        },
{
    let width: usize = info.scalar_type.byte_width();
    let ghost w = width as int;
    proof {
        assert(cells * w <= cells * 8) by (nonlinear_arith)
            requires
                w <= 8,
                cells >= 0,
        ;
    }
    if !(window.mask.len() == cells && window.samples_le.len() == cells * width) {
        return Err(Error::TypedLength);
    }
    if !(is_finite_bits(info.scale_f64_bits) && is_finite_bits(info.offset_f64_bits)) {
        return Err(Error::TypedScaling);
    }
    let mut values: Vec<V> = Vec::new();
    let mut valid: Vec<bool> = Vec::new();
    let mut i: usize = 0;
    while i < cells
        invariant
            i <= cells,
            w == width,
            width == info.scalar_type.width(),
            cells * w <= usize::MAX,
            window.mask@.len() == cells,
            window.samples_le@.len() == cells * w,
            band_refusal(*info, *window, cells as int) is None,
            answers::<V, F>(*rule),
            values@.len() == i,
            valid@.len() == i,
            forall|k: int|
                0 <= k < i ==> call_ensures(
                    *rule,
                    (index, sample_bits(*window, w, k), window.mask@[k]),
                    (#[trigger] values@[k], valid@[k]),
                ),
        decreases cells - i,
    {
        if i % 4096 == 0 {
            check_cancel(cancel)?;
        }
        proof {
            lemma_row_major(i as int, w - 1, w, cells as int);
            assert((i + 1) * w == i * w + w && 0 <= i * w) by (nonlinear_arith)
                requires
                    0 <= i,
                    0 < w,
            ;
        }
        let bits: u64 = le_at(window.samples_le.as_slice(), i * width, width);
        let (value, ok) = rule(index, bits, window.mask[i]);
        values.push(value);
        valid.push(ok);
        i += 1;
    }
    let unit = info.unit.clone();
    Ok(Band { values, valid, unit })
}

/// What a reader says of a window that it returned.
#[derive(Debug)]
pub struct ReturnedWindow<'a> {
    /// Its grid is the source's, cut to the window and shifted to its corner.
    pub aligned: bool,
    /// What checking its values and masks gives.
    pub checked: Result<(), Error>,
    pub source_id: &'a str,
    pub units: &'a [Option<String>],
}

/// The unit of returned band `k` is the one that the source declares.
pub open spec fn unit_agrees(
    units: Seq<Option<String>>,
    declared: Seq<Option<String>>,
    indices: Seq<usize>,
    k: int,
) -> bool {
    indices[k] < declared.len() && match (units[k], declared[indices[k] as int]) {
        (Some(a), Some(b)) => a@ == b@,
        (None, None) => true,
        _ => false,
    }
}

/// Why a returned window is not accepted, if it is not.
pub open spec fn window_refusal<'a>(
    grid: (int, int),
    source_id: Seq<char>,
    declared: Seq<Option<String>>,
    returned: ReturnedWindow<'a>,
    window: (int, int, int, int),
    indices: Seq<usize>,
) -> Option<Error> {
    if !(window.0 + window.2 <= grid.0 && window.1 + window.3 <= grid.1) {
        Some(Error::ReturnedBounds)
    } else if !returned.aligned {
        Some(Error::ReturnedAlignment)
    } else if !(returned.source_id@ == source_id && returned.units@.len() == indices.len()) {
        Some(Error::ReturnedIdentity)
    } else if returned.checked is Err {
        Some(returned.checked->Err_0)
    } else if exists|k: int|
        0 <= k < indices.len() && !#[trigger] unit_agrees(returned.units@, declared, indices, k) {
        Some(Error::ReturnedUnit)
    } else {
        None
    }
}

/// Enforce the reader contract before caching, reducing, or persisting a window.
/// A valid raster alone does not prove its position or requested band ordering.
pub fn validate_window_with<'a>(
    grid: (usize, usize),
    source_id: &str,
    declared: &[Option<String>],
    returned: &ReturnedWindow<'a>,
    window: (usize, usize, usize, usize),
    indices: &[usize],
) -> (r: Result<(), Error>)
    ensures
        r == (match window_refusal(
            (grid.0 as int, grid.1 as int),
            source_id@,
            declared@,
            *returned,
            (window.0 as int, window.1 as int, window.2 as int, window.3 as int),
            indices@,
        ) {
            Some(e) => Err::<(), Error>(e),
            None => Ok(()),
        }),
{
    let inside = match window.0.checked_add(window.2) {
        Some(end) => end <= grid.0,
        None => false,
    } && match window.1.checked_add(window.3) {
        Some(end) => end <= grid.1,
        None => false,
    };
    if !inside {
        return Err(Error::ReturnedBounds);
    }
    if !returned.aligned {
        return Err(Error::ReturnedAlignment);
    }
    if !(same(returned.source_id, source_id) && returned.units.len() == indices.len()) {
        return Err(Error::ReturnedIdentity);
    }
    match returned.checked {
        Ok(()) => {},
        Err(e) => return Err(e),
    }
    let mut k: usize = 0;
    while k < indices.len()
        invariant
            k <= indices@.len(),
            returned.units@.len() == indices@.len(),
            window.0 + window.2 <= grid.0,
            window.1 + window.3 <= grid.1,
            returned.aligned,
            returned.source_id@ == source_id@,
            returned.checked is Ok,
            forall|i: int|
                0 <= i < k ==> #[trigger] unit_agrees(returned.units@, declared@, indices@, i),
        decreases indices@.len() - k,
    {
        let index: usize = indices[k];
        if !(index < declared.len() && same_option(&returned.units[k], &declared[index])) {
            assert(!unit_agrees(returned.units@, declared@, indices@, k as int));
            return Err(Error::ReturnedUnit);
        }
        k += 1;
    }
    Ok(())
}

/// A band of a raster has a value and a validity for each cell, and a unit of moderate length.
pub open spec fn band_shaped<V>(band: Band<V>, cells: int) -> bool {
    &&& band.values@.len() == cells
    &&& band.valid@.len() == cells
    &&& band.unit is Some ==> utf8(band.unit->0@).len() <= MAX_UNIT_BYTES
}

/// A test that gives one answer for a value.
pub open spec fn decides<V, F: Fn(V) -> bool>(test: F) -> bool {
    forall|v: V, b: bool| #[trigger]
        call_ensures(test, (v,), b) ==> b == call_ensures(test, (v,), true)
}

impl<V: Copy> Raster<V> {
    /// Why this raster is none, if it is not, whatever its values are.
    pub open spec fn structure_refusal(&self) -> Option<Error> {
        if !self.grid.valid() {
            Some(Error::GridShape)
        } else if exists|b: int|
            0 <= b < self.bands@.len() && !band_shaped(
                #[trigger] self.bands@[b],
                self.grid.width * self.grid.height,
            ) {
            Some(Error::BandShape)
        } else {
            None
        }
    }

    /// Check the grid, the bands and their units, whatever the values are.
    pub fn validate_structure(&self) -> (r: Result<(), Error>)
        ensures
            r == (match self.structure_refusal() {
                Some(e) => Err::<(), Error>(e),
                None => Ok(()),
            }),
    {
        self.grid.validate()?;
        let cells: Option<usize> = self.grid.width.checked_mul(self.grid.height);
        let mut b: usize = 0;
        while b < self.bands.len()
            invariant
                b <= self.bands@.len(),
                self.grid.valid(),
                cells == (if self.grid.width * self.grid.height <= usize::MAX {
                    Some((self.grid.width * self.grid.height) as usize)
                } else {
                    None
                }),
                forall|k: int|
                    0 <= k < b ==> band_shaped(
                        #[trigger] self.bands@[k],
                        self.grid.width * self.grid.height,
                    ),
            decreases self.bands@.len() - b,
        {
            let band = &self.bands[b];
            let have: usize = band.values.len();
            let sized: bool = match cells {
                Some(n) => have == n && band.valid.len() == n,
                None => false,
            };
            let named: bool = match &band.unit {
                Some(unit) => byte_len(unit.as_str()) <= MAX_UNIT_BYTES,
                None => true,
            };
            if !(sized && named) {
                assert(!band_shaped(self.bands@[b as int], self.grid.width * self.grid.height));
                return Err(Error::BandShape);
            }
            b += 1;
        }
        Ok(())
    }

    /// Some valid value is none that a measurement can take.
    pub open spec fn has_wild<F: Fn(V) -> bool>(&self, finite: F) -> bool {
        exists|b: int, i: int|
            0 <= b < self.bands@.len() && 0 <= i < self.bands@[b].values@.len()
                && self.bands@[b].valid@[i] && !call_ensures(
                finite,
                (#[trigger] self.bands@[b].values@[i],),
                true,
            )
    }

    /// Check a raster that is to be measured: every valid value is finite, as the caller tells.
    pub fn validate<F: Fn(V) -> bool>(&self, finite: &F) -> (r: Result<(), Error>)
        requires
            forall|v: V| call_requires(*finite, (v,)),
            decides(*finite),
        ensures
            r == (match self.structure_refusal() {
                Some(e) => Err::<(), Error>(e),
                None => if self.has_wild(*finite) {
                    Err(Error::ValidNonfinite)
                } else {
                    Ok(())
                },
            }),
    {
        self.validate_structure()?;
        let mut b: usize = 0;
        while b < self.bands.len()
            invariant
                b <= self.bands@.len(),
                self.structure_refusal() is None,
                forall|v: V| call_requires(*finite, (v,)),
                decides(*finite),
                forall|k: int, i: int|
                    0 <= k < b && 0 <= i < self.bands@[k].values@.len() && self.bands@[k].valid@[i]
                        ==> call_ensures(*finite, (#[trigger] self.bands@[k].values@[i],), true),
            decreases self.bands@.len() - b,
        {
            let band = &self.bands[b];
            assert(band_shaped(self.bands@[b as int], self.grid.width * self.grid.height));
            let mut i: usize = 0;
            while i < band.values.len()
                invariant
                    b < self.bands@.len(),
                    *band == self.bands@[b as int],
                    i <= band.values@.len(),
                    band.valid@.len() == band.values@.len(),
                    self.structure_refusal() is None,
                    forall|v: V| call_requires(*finite, (v,)),
                    decides(*finite),
                    forall|k: int|
                        0 <= k < i && band.valid@[k] ==> call_ensures(
                            *finite,
                            (#[trigger] band.values@[k],),
                            true,
                        ),
                decreases band.values@.len() - i,
            {
                if band.valid[i] && !finite(band.values[i]) {
                    assert(!call_ensures(
                        *finite,
                        (self.bands@[b as int].values@[i as int],),
                        true,
                    ));
                    return Err(Error::ValidNonfinite);
                }
                i += 1;
            }
            b += 1;
        }
        Ok(())
    }
}

} // verus!
