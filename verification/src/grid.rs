use vstd::prelude::*;
use ndarray::Array2;
use ndarray::ShapeBuilder;

verus! {

/// A dense two-dimensional table of `u64` cells, stored by `ndarray`.
#[verifier::external_body]
pub struct Grid {
    cells: Array2<u64>,
}

/// The rows of a grid, each a sequence of cells.
pub uninterp spec fn cells_of(g: Grid) -> Seq<Seq<u64>>;

/// The largest number of cells a grid may be made with.
pub open spec fn grid_fits(n: int, m: int) -> bool {
    0 <= n && 0 <= m && n <= isize::MAX && m <= isize::MAX && n * m * 8 <= isize::MAX
}

/// `Array2::zeros` with a column-major shape: `n` rows of `m` zero cells.
#[verifier::external_body]
pub(crate) fn grid_zeros(n: usize, m: usize) -> (g: Grid)
    requires
        grid_fits(n as int, m as int),
    ensures
        cells_of(g) == Seq::new(n as nat, |i: int| Seq::new(m as nat, |j: int| 0u64)),
{
    Grid { cells: Array2::<u64>::zeros((n, m).f()) }
}

/// Indexing an `Array2` by `[i, j]`: the cell in row `i`, column `j`.
#[verifier::external_body]
pub(crate) fn grid_get(g: &Grid, i: usize, j: usize) -> (v: u64)
    requires
        i < cells_of(*g).len(),
        j < cells_of(*g)[i as int].len(),
    ensures
        v == cells_of(*g)[i as int][j as int],
{
    g.cells[[i, j]]
}

/// Assigning through the index `[i, j]` of an `Array2`: one cell changes.
#[verifier::external_body]
pub(crate) fn grid_set(g: &mut Grid, i: usize, j: usize, v: u64)
    requires
        i < cells_of(*old(g)).len(),
        j < cells_of(*old(g))[i as int].len(),
    ensures
        cells_of(*final(g)) == cells_of(*old(g)).update(
            i as int,
            cells_of(*old(g))[i as int].update(j as int, v),
        ),
{
    g.cells[[i, j]] = v;
}

} // verus!
