//! Coordinate vectors of a NetCDF grid. They are checked themselves: an affine that was fitted
//! to them would accept some nearly regular vectors and silently move their cells.
use vstd::prelude::*;

use crate::bytes::{le_bytes, put_u64};
use crate::codec::{hex_of, sha256, sha256_of, to_hex};
use crate::error::Error;
use crate::layout::min_of;

verus! {

/// The longest coordinate vector.
pub const MAX_COORDINATES: u64 = 2000000;

/// How many coordinates are read at once.
pub const COORDINATE_STEP: usize = 65536;

/// A spatial axis of a variable, the last dimension being that of columns.
#[derive(Clone, Copy, Debug, PartialEq, Eq, Structural)]
pub struct Axis {
    pub columns: bool,
    pub size: usize,
    /// Its last coordinate is greater than its first.
    pub increasing: bool,
}

/// The places of the two spatial dimensions among all: columns last, rows before.
pub fn spatial_dimensions(count: usize) -> (r: Result<(usize, usize), Error>)
    ensures
        r == (if 2 <= count <= 8 {
            Ok::<(usize, usize), Error>(((count - 1) as usize, (count - 2) as usize))
        } else {
            Err(Error::NetcdfDimensions)
        }),
{
    if count < 2 || count > 8 {
        return Err(Error::NetcdfDimensions);
    }
    Ok((count - 1, count - 2))
}

/// Why the coordinates of an axis are not read, if they are not. `vector` tells whether they
/// are one-dimensional.
pub open spec fn axis_refusal(size: u64, expected: usize, vector: bool) -> Option<Error> {
    if !(size == expected && 2 <= size <= MAX_COORDINATES) {
        Some(Error::NetcdfShape)
    } else if !vector {
        Some(Error::NetcdfVector)
    } else {
        None
    }
}

/// Check the shape of an axis against the grid.
pub fn check_axis(size: u64, expected: usize, vector: bool) -> (r: Result<(), Error>)
    ensures
        r == (match axis_refusal(size, expected, vector) {
            Some(e) => Err::<(), Error>(e),
            None => Ok(()),
        }),
{
    if size != expected as u64 || size < 2 || size > MAX_COORDINATES {
        return Err(Error::NetcdfShape);
    }
    if !vector {
        return Err(Error::NetcdfVector);
    }
    Ok(())
}

impl Axis {
    /// Columns must run to the right; rows may run either way.
    pub fn check_direction(&self) -> (r: Result<(), Error>)
        ensures
            r == (if self.columns && !self.increasing {
                Err::<(), Error>(Error::NetcdfDescending)
            } else {
                Ok(())
            }),
    {
        if self.columns && !self.increasing {
            Err(Error::NetcdfDescending)
        } else {
            Ok(())
        }
    }

    /// The row or column of the grid that coordinate `index` belongs to: rows that run upward
    /// are exposed from the top.
    pub open spec fn exposed_spec(&self, index: int) -> int {
        if !self.columns && self.increasing {
            self.size - 1 - index
        } else {
            index
        }
    }

    pub fn exposed(&self, index: usize) -> (r: usize)
        requires
            index < self.size,
        ensures
            r == self.exposed_spec(index as int),
    {
        if !self.columns && self.increasing {
            self.size - 1 - index
        } else {
            index
        }
    }

    /// How many coordinates are read next.
    pub fn step(&self, start: usize) -> (r: usize)
        requires
            start <= self.size,
        ensures
            r == min_of(self.size - start, COORDINATE_STEP as int),
    {
        if self.size - start < COORDINATE_STEP {
            self.size - start
        } else {
            COORDINATE_STEP
        }
    }
}

/// Exposing a coordinate twice gives its index back, and every index stays in the axis: no two
/// coordinates share a row or a column, and none is left without one.
pub proof fn exposing_is_undone_by_itself(axis: Axis, index: int)
    requires
        0 <= index < axis.size,
    ensures
        0 <= axis.exposed_spec(index) < axis.size,
        axis.exposed_spec(axis.exposed_spec(index)) == index,
{
}

/// The bytes of coordinates, each as the eight bytes of its double.
pub open spec fn coordinate_bytes(bits: Seq<u64>) -> Seq<u8>
    decreases bits.len(),
{
    if bits.len() == 0 {
        Seq::empty()
    } else {
        coordinate_bytes(bits.drop_last()) + le_bytes(bits.last() as nat, 8)
    }
}

fn push_coordinates(bytes: &mut Vec<u8>, bits: &[u64])
    ensures
        final(bytes)@ == old(bytes)@ + coordinate_bytes(bits@),
{
    assert(bits@.take(0) =~= Seq::<u64>::empty());
    let mut i: usize = 0;
    while i < bits.len()
        invariant
            i <= bits@.len(),
            bytes@ == old(bytes)@ + coordinate_bytes(bits@.take(i as int)),
        decreases bits@.len() - i,
    {
        let ghost before = bytes@;
        let mut word: Vec<u8> = vec![0; 8];
        put_u64(word.as_mut_slice(), 0, bits[i]);
        proof {
            assert(word@.subrange(0, 8) =~= word@);
            assert(bits@.take(i + 1).drop_last() =~= bits@.take(i as int));
        }
        bytes.append(&mut word);
        proof {
            assert(bytes@ =~= old(bytes)@ + coordinate_bytes(bits@.take(i + 1)));
        }
        i += 1;
    }
    assert(bits@.take(bits@.len() as int) =~= bits@);
}

/// The digest of the coordinates of both axes, columns first.
pub fn coordinate_sha256(columns: &[u64], rows: &[u64]) -> (r: String)
    ensures
        r@ == hex_of(sha256_of(coordinate_bytes(columns@) + coordinate_bytes(rows@))),
{
    let mut bytes: Vec<u8> = Vec::new();
    push_coordinates(&mut bytes, columns);
    push_coordinates(&mut bytes, rows);
    proof {
        assert(Seq::<u8>::empty() + coordinate_bytes(columns@) =~= coordinate_bytes(columns@));
    }
    to_hex(sha256(bytes.as_slice()).as_slice())
}

} // verus!
