//! Bounds checking and lithology-query helpers shared by the flood-fill
//! engine.

use vstd::prelude::*;

use crate::state::CellState;

verus! {

/// Whether the signed indices (x, y, z) name a cell of an
/// nx-by-ny-by-nz grid.  Negative indices are out of bounds.
pub open spec fn spec_in_bounds(x: int, y: int, z: int, nx: int, ny: int, nz: int) -> bool {
    0 <= x < nx && 0 <= y < ny && 0 <= z < nz
}

/// Bounds check over signed indices; negative values are out of bounds.
pub fn is_inside_bounds(x: i32, y: i32, z: i32, nx: usize, ny: usize, nz: usize) -> (r: bool)
    ensures
        r == spec_in_bounds(x as int, y as int, z as int, nx as int, ny as int, nz as int),
{
    x >= 0 && (x as usize) < nx && y >= 0 && (y as usize) < ny && z >= 0 && (z as usize) < nz
}

/// Converts signed indices to unsigned ones, exactly when they are in
/// bounds.
pub fn safe_indices(x: i32, y: i32, z: i32, nx: usize, ny: usize, nz: usize) -> (r: Option<
    (usize, usize, usize),
>)
    ensures
        spec_in_bounds(x as int, y as int, z as int, nx as int, ny as int, nz as int)
            ==> r == Some((x as usize, y as usize, z as usize)),
        !spec_in_bounds(x as int, y as int, z as int, nx as int, ny as int, nz as int)
            ==> r is None,
{
    if is_inside_bounds(x, y, z, nx, ny, nz) {
        Some((x as usize, y as usize, z as usize))
    } else {
        None
    }
}

/// Whether the cell state is the impermeable seal.
pub fn is_caprock(val: CellState) -> (r: bool)
    ensures
        r == (val == CellState::Caprock),
{
    val == CellState::Caprock
}

/// Whether the cell state is unfilled pore space.
pub fn is_empty(val: CellState) -> (r: bool)
    ensures
        r == (val == CellState::Reservoir),
{
    val == CellState::Reservoir
}

/// The number of layers between a filled cell at layer `zi` and the
/// sealing layer `caprock_idx` above it.
pub fn find_height_to_caprock(zi: usize, caprock_idx: usize) -> (r: usize)
    requires
        caprock_idx <= zi,
    ensures
        r == zi - caprock_idx,
{
    zi - caprock_idx
}

/// The deepest layer index at or above `zi` whose state is `Caprock`,
/// or 0 when the column holds no caprock at or above `zi`.
pub open spec fn spec_closest_caprock(column: Seq<CellState>, zi: int) -> int
    decreases zi,
{
    if zi < 0 {
        0
    } else if column[zi] == CellState::Caprock {
        zi
    } else if zi == 0 {
        0
    } else {
        spec_closest_caprock(column, zi - 1)
    }
}

/// The index of the closest layer at or above `zi` (deepest index `<= zi`)
/// whose state is `Caprock`; 0 when there is none.
pub fn find_closest_caprock_idx(column: &Vec<CellState>, zi: usize) -> (r: usize)
    requires
        zi < column@.len(),
    ensures
        r == spec_closest_caprock(column@, zi as int),
{
    let mut i: usize = zi;
    loop
        invariant
            i <= zi < column@.len(),
            spec_closest_caprock(column@, zi as int) == spec_closest_caprock(column@, i as int),
        decreases i,
    {
        if column[i] == CellState::Caprock {
            return i;
        }
        if i == 0 {
            return 0;
        }
        i = i - 1;
    }
}

/// The result of `spec_closest_caprock` is itself at or above `zi`, and
/// within the column.
pub proof fn lemma_closest_caprock_range(column: Seq<CellState>, zi: int)
    requires
        0 <= zi < column.len(),
    ensures
        0 <= spec_closest_caprock(column, zi) <= zi,
    decreases zi,
{
    if !(column[zi] == CellState::Caprock) && zi > 0 {
        lemma_closest_caprock_range(column, zi - 1);
    }
}

} // verus!
