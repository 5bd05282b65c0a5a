//! Cell storage backed by `nalgebra::DMatrix<u8>`.
//!
//! Everything in this file is trusted: the verifier takes the contracts
//! below as given and never looks at the matrix itself.

use vstd::prelude::*;

verus! {

/// A dense matrix of colors, held in a `nalgebra::DMatrix<u8>`.
///
/// The matrix type takes its storage as a parameter that is bounded by a
/// trait of `nalgebra`, so verified signatures cannot name it; this struct
/// keeps it out of their sight. The matrix is opaque to the verifier:
/// contracts speak of it through [`matrix_rows`].
#[verifier::external_body]
#[derive(Debug)]
pub struct CellMatrix {
    inner: nalgebra::DMatrix<u8>,
}

/// The entries of a matrix, row by row from the top, each row from the left.
pub uninterp spec fn matrix_rows(m: CellMatrix) -> Seq<Seq<u8>>;

/// Calls `DMatrix::from_element`: a matrix of `nrows` rows and `ncols`
/// columns whose every entry is `value`. The product of the two dimensions
/// must fit the allocator's limit, since the call multiplies them and
/// allocates that many bytes.
#[verifier::external_body]
pub(crate) fn matrix_filled(nrows: usize, ncols: usize, value: u8) -> (m: CellMatrix)
    requires
        nrows * ncols <= isize::MAX,
    ensures
        matrix_rows(m) == Seq::new(nrows as nat, |r: int| Seq::new(ncols as nat, |c: int| value)),
{
    CellMatrix { inner: nalgebra::DMatrix::from_element(nrows, ncols, value) }
}

/// Calls `Index<(usize, usize)>` of the matrix: the entry in row `row` and
/// column `col`. The index operator panics outside the matrix, so both
/// coordinates must lie inside it.
#[verifier::external_body]
pub(crate) fn matrix_get(m: &CellMatrix, row: usize, col: usize) -> (value: u8)
    requires
        row < matrix_rows(*m).len(),
        col < matrix_rows(*m)[row as int].len(),
    ensures
        value == matrix_rows(*m)[row as int][col as int],
{
    m.inner[(row, col)]
}

/// Calls `IndexMut<(usize, usize)>` of the matrix: overwrites the entry in
/// row `row` and column `col` and leaves every other entry as it was.
#[verifier::external_body]
pub(crate) fn matrix_set(m: &mut CellMatrix, row: usize, col: usize, value: u8)
    requires
        row < matrix_rows(*old(m)).len(),
        col < matrix_rows(*old(m))[row as int].len(),
    ensures
        matrix_rows(*final(m)) == matrix_rows(*old(m)).update(
            row as int,
            matrix_rows(*old(m))[row as int].update(col as int, value),
        ),
{
    m.inner[(row, col)] = value;
}

/// Calls `Clone::clone` of the matrix: a second matrix with the same shape
/// and the same entries.
#[verifier::external_body]
pub(crate) fn matrix_clone(m: &CellMatrix) -> (copy: CellMatrix)
    ensures
        matrix_rows(copy) == matrix_rows(*m),
{
    CellMatrix { inner: m.inner.clone() }
}

} // verus!
