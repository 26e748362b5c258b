//! The grid storage: a dense `u32` matrix of nalgebra, seen by the proofs as its
//! entries in column-major order together with its number of rows.

use vstd::prelude::*;
use nalgebra::DMatrix;

verus! {

/// A dense matrix of `u32` entries, held in nalgebra's `DMatrix`.
#[verifier::external_body]
pub struct CellMatrix {
    m: DMatrix<u32>,
}

/// The entries of a matrix, column after column (nalgebra stores matrices column-major).
pub uninterp spec fn matrix_entries(m: CellMatrix) -> Seq<u32>;

/// The number of rows of a matrix.
pub uninterp spec fn matrix_nrows(m: CellMatrix) -> nat;

/// The position of entry `(row, col)` in `matrix_entries` of a matrix with `nrows` rows.
pub open spec fn entry_index(nrows: int, row: int, col: int) -> int {
    col * nrows + row
}

/// Relies on `DMatrix::from_element`: an `nrows` by `ncols` matrix whose every entry is `elem`.
#[verifier::external_body]
pub(crate) fn matrix_filled(nrows: usize, ncols: usize, elem: u32) -> (m: CellMatrix)
    requires
        nrows * ncols <= usize::MAX,
    ensures
        matrix_nrows(m) == nrows,
        matrix_entries(m) == Seq::new((nrows * ncols) as nat, |i: int| elem),
{
    CellMatrix { m: DMatrix::from_element(nrows, ncols, elem) }
}

/// Relies on `Index<(usize, usize)>` of nalgebra's `Matrix`: the entry at row `row`
/// and column `col`, which sits at `col * nrows + row` of the column-major storage.
#[verifier::external_body]
pub(crate) fn matrix_get(m: &CellMatrix, row: usize, col: usize) -> (v: u32)
    requires
        row < matrix_nrows(*m),
        entry_index(matrix_nrows(*m) as int, row as int, col as int) < matrix_entries(*m).len(),
    ensures
        v == matrix_entries(*m)[entry_index(matrix_nrows(*m) as int, row as int, col as int)],
{
    m.m[(row, col)]
}

/// Relies on `IndexMut<(usize, usize)>` of nalgebra's `Matrix`: writing through it
/// replaces that one entry and keeps the shape.
#[verifier::external_body]
pub(crate) fn matrix_set(m: &mut CellMatrix, row: usize, col: usize, v: u32)
    requires
        row < matrix_nrows(*old(m)),
        entry_index(matrix_nrows(*old(m)) as int, row as int, col as int) < matrix_entries(
            *old(m),
        ).len(),
    ensures
        matrix_nrows(*final(m)) == matrix_nrows(*old(m)),
        matrix_entries(*final(m)) == matrix_entries(*old(m)).update(
            entry_index(matrix_nrows(*old(m)) as int, row as int, col as int),
            v,
        ),
{
    m.m[(row, col)] = v;
}

} // verus!
