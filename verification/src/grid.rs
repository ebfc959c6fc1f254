//! A dense 3D array stored in one flat vector, indexed by (x, y, z) with
//! x/y horizontal and z vertical (z = 0 is the shallowest layer).

use vstd::prelude::*;

verus! {

/// Index arithmetic: the flat position of cell (x, y, z) in an
/// nx-by-ny-by-nz grid laid out with z fastest.
pub open spec fn spec_flat_idx(ny: int, nz: int, x: int, y: int, z: int) -> int {
    x * (ny * nz) + y * nz + z
}

/// The flat index of an in-bounds cell lies inside the grid's storage.
pub proof fn lemma_flat_idx_bounds(nx: int, ny: int, nz: int, x: int, y: int, z: int)
    by (nonlinear_arith)
    requires
        0 <= x < nx,
        0 <= y < ny,
        0 <= z < nz,
    ensures
        0 <= spec_flat_idx(ny, nz, x, y, z) < nx * ny * nz,
        0 <= x * (ny * nz),
        0 <= y * nz,
        nx * (ny * nz) == nx * ny * nz,
        ny * nz <= nx * (ny * nz),
{
}

/// Distinct in-bounds cells have distinct flat indices.
pub proof fn lemma_flat_idx_injective(
    nx: int,
    ny: int,
    nz: int,
    x1: int,
    y1: int,
    z1: int,
    x2: int,
    y2: int,
    z2: int,
)
    by (nonlinear_arith)
    requires
        0 <= x1 < nx,
        0 <= y1 < ny,
        0 <= z1 < nz,
        0 <= x2 < nx,
        0 <= y2 < ny,
        0 <= z2 < nz,
        !(x1 == x2 && y1 == y2 && z1 == z2),
    ensures
        spec_flat_idx(ny, nz, x1, y1, z1) != spec_flat_idx(ny, nz, x2, y2, z2),
{
}

/// A dense 3D array of `T`, owned by one simulation run.
pub struct Grid3<T> {
    pub data: Vec<T>,
    pub nx: usize,
    pub ny: usize,
    pub nz: usize,
}

impl<T> Grid3<T> {
    /// The storage holds exactly one slot per cell.
    pub open spec fn wf(self) -> bool {
        self.data@.len() == self.nx * self.ny * self.nz
    }

    /// Whether (x, y, z) names a cell of this grid.
    pub open spec fn in_bounds(self, x: int, y: int, z: int) -> bool {
        0 <= x < self.nx && 0 <= y < self.ny && 0 <= z < self.nz
    }

    /// The flat storage position of cell (x, y, z).
    pub open spec fn flat_idx(self, x: int, y: int, z: int) -> int {
        spec_flat_idx(self.ny as int, self.nz as int, x, y, z)
    }

    /// The value held at cell (x, y, z).
    pub open spec fn cell(self, x: int, y: int, z: int) -> T {
        self.data@[self.flat_idx(x, y, z)]
    }

    /// Same dimensions as another grid.
    pub open spec fn same_dims<U>(self, other: Grid3<U>) -> bool {
        self.nx == other.nx && self.ny == other.ny && self.nz == other.nz
    }

    /// Wraps an existing flat vector; the caller supplies the dimensions.
    pub fn from_vec(data: Vec<T>, nx: usize, ny: usize, nz: usize) -> (r: Grid3<T>)
        requires
            data@.len() == nx * ny * nz,
        ensures
            r.wf(),
            r.nx == nx && r.ny == ny && r.nz == nz,
            r.data == data,
    {
        Grid3 { data, nx, ny, nz }
    }

    /// Gives the flat storage back.
    pub fn into_vec(self) -> (r: Vec<T>)
        ensures
            r == self.data,
    {
        self.data
    }

    /// The flat storage position of in-bounds cell (x, y, z).
    pub fn index(&self, x: usize, y: usize, z: usize) -> (r: usize)
        requires
            self.wf(),
            self.in_bounds(x as int, y as int, z as int),
        ensures
            r == self.flat_idx(x as int, y as int, z as int),
            r < self.data@.len(),
    {
        let n: usize = self.data.len();
        proof {
            lemma_flat_idx_bounds(
                self.nx as int,
                self.ny as int,
                self.nz as int,
                x as int,
                y as int,
                z as int,
            );
        }
        x * (self.ny * self.nz) + y * self.nz + z
    }
}

impl<T: Copy> Grid3<T> {
    /// A fresh grid with every cell set to `fill`.
    pub fn new(nx: usize, ny: usize, nz: usize, fill: T) -> (r: Grid3<T>)
        requires
            nx * ny <= usize::MAX,
            nx * ny * nz <= usize::MAX,
        ensures
            r.wf(),
            r.nx == nx && r.ny == ny && r.nz == nz,
            forall|i: int| 0 <= i < r.data@.len() ==> r.data@[i] == fill,
            forall|x: int, y: int, z: int|
                r.in_bounds(x, y, z) ==> r.cell(x, y, z) == fill,
    {
        proof {
            assert((nx * ny) * nz == nx * ny * nz) by (nonlinear_arith);
        }
        let total: usize = (nx * ny) * nz;
        let mut data: Vec<T> = Vec::new();
        while data.len() < total
            invariant
                data@.len() <= total,
                forall|i: int| 0 <= i < data@.len() ==> data@[i] == fill,
            decreases total - data@.len(),
        {
            data.push(fill);
        }
        let r = Grid3 { data, nx, ny, nz };
        proof {
            assert forall|x: int, y: int, z: int|
                r.in_bounds(x, y, z) implies r.cell(x, y, z) == fill by {
                lemma_flat_idx_bounds(nx as int, ny as int, nz as int, x, y, z);
            }
        }
        r
    }

    /// The value of in-bounds cell (x, y, z).
    pub fn get(&self, x: usize, y: usize, z: usize) -> (r: T)
        requires
            self.wf(),
            self.in_bounds(x as int, y as int, z as int),
        ensures
            r == self.cell(x as int, y as int, z as int),
    {
        let i: usize = self.index(x, y, z);
        self.data[i]
    }

    /// Writes `value` at in-bounds cell (x, y, z); every other cell keeps
    /// its value.
    pub fn set(&mut self, x: usize, y: usize, z: usize, value: T)
        requires
            old(self).wf(),
            old(self).in_bounds(x as int, y as int, z as int),
        ensures
            final(self).wf(),
            final(self).nx == old(self).nx && final(self).ny == old(self).ny && final(self).nz
                == old(self).nz,
            final(self).data@ == old(self).data@.update(
                old(self).flat_idx(x as int, y as int, z as int),
                value,
            ),
            final(self).cell(x as int, y as int, z as int) == value,
            forall|a: int, b: int, c: int|
                old(self).in_bounds(a, b, c) && !(a == x && b == y && c == z)
                    ==> final(self).cell(a, b, c) == old(self).cell(a, b, c),
    {
        let i: usize = self.index(x, y, z);
        self.data.set(i, value);
        proof {
            assert forall|a: int, b: int, c: int|
                old(self).in_bounds(a, b, c) && !(a == x && b == y && c == z)
                    implies self.cell(a, b, c) == old(self).cell(a, b, c) by {
                lemma_flat_idx_bounds(
                    self.nx as int,
                    self.ny as int,
                    self.nz as int,
                    a,
                    b,
                    c,
                );
                lemma_flat_idx_injective(
                    self.nx as int,
                    self.ny as int,
                    self.nz as int,
                    a,
                    b,
                    c,
                    x as int,
                    y as int,
                    z as int,
                );
            }
        }
    }

    /// An independent copy with the same dimensions and contents.
    pub fn duplicate(&self) -> (r: Grid3<T>)
        requires
            self.wf(),
        ensures
            r.wf(),
            r.nx == self.nx && r.ny == self.ny && r.nz == self.nz,
            r.data@ == self.data@,
    {
        let mut data: Vec<T> = Vec::new();
        let n: usize = self.data.len();
        while data.len() < n
            invariant
                data@.len() <= n,
                n == self.data@.len(),
                forall|i: int| 0 <= i < data@.len() ==> data@[i] == self.data@[i],
            decreases n - data@.len(),
        {
            let i: usize = data.len();
            data.push(self.data[i]);
        }
        let r = Grid3 { data, nx: self.nx, ny: self.ny, nz: self.nz };
        proof {
            assert(r.data@ =~= self.data@);
        }
        r
    }
}

} // verus!
