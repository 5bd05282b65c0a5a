//! The state key: a number computed from the colors of a grid alone.
//!
//! Grids with the same colors have the same key. Grids with different
//! colors may share a key, so a set that files grids under their keys
//! still has to compare the colors.

use crate::matrix::{matrix_get, matrix_rows, CellMatrix};
use vstd::prelude::*;

verus! {

/// Keys are kept below this prime.
pub const KEY_MODULUS: u64 = 1_000_000_007;

/// The key after one more color has been taken in.
pub open spec fn mix(seed: int, color: u8) -> int {
    (seed * 31 + color + 1) % (KEY_MODULUS as int)
}

/// The key after the colors of one row have been taken in, left to right.
pub open spec fn row_key(seed: int, row: Seq<u8>) -> int
    decreases row.len(),
{
    if row.len() == 0 {
        seed
    } else {
        mix(row_key(seed, row.drop_last()), row.last())
    }
}

/// The key of a grid: its rows taken in from the top, starting from 0.
pub open spec fn rows_key(rows: Seq<Seq<u8>>) -> int
    decreases rows.len(),
{
    if rows.len() == 0 {
        0
    } else {
        row_key(rows_key(rows.drop_last()), rows.last())
    }
}

/// The rows have the stated shape.
pub open spec fn rows_shaped(rows: Seq<Seq<u8>>, width: int, height: int) -> bool {
    &&& rows.len() == height
    &&& forall|r: int| 0 <= r < height ==> (#[trigger] rows[r]).len() == width
}

/// Computes the key of the colors held in a matrix.
pub(crate) fn cells_key(m: &CellMatrix, width: usize, height: usize) -> (key: u64)
    requires
        rows_shaped(matrix_rows(*m), width as int, height as int),
    ensures
        key == rows_key(matrix_rows(*m)),
        key < KEY_MODULUS,
{
    let ghost rows = matrix_rows(*m);
    let mut key: u64 = 0;
    let mut r: usize = 0;
    while r < height
        invariant
            rows == matrix_rows(*m),
            rows_shaped(rows, width as int, height as int),
            r <= height,
            key < KEY_MODULUS,
            key == rows_key(rows.take(r as int)),
        decreases height - r,
    {
        let ghost seed = key;
        let mut c: usize = 0;
        while c < width
            invariant
                rows == matrix_rows(*m),
                rows_shaped(rows, width as int, height as int),
                r < height,
                c <= width,
                key < KEY_MODULUS,
                key == row_key(seed as int, rows[r as int].take(c as int)),
            decreases width - c,
        {
            let color = matrix_get(m, r, c);
            proof {
                let longer = rows[r as int].take(c + 1);
                assert(longer.drop_last() =~= rows[r as int].take(c as int));
                assert(longer.last() == color);
            }
            key = (key * 31 + color as u64 + 1) % KEY_MODULUS;
            c = c + 1;
        }
        proof {
            let longer = rows.take(r + 1);
            assert(longer.drop_last() =~= rows.take(r as int));
            assert(longer.last() == rows[r as int]);
            assert(rows[r as int].take(width as int) =~= rows[r as int]);
        }
        r = r + 1;
    }
    proof {
        assert(rows.take(height as int) =~= rows);
    }
    key
}

/// Tells whether two matrices of one shape hold the same colors.
pub(crate) fn same_cells(a: &CellMatrix, b: &CellMatrix, width: usize, height: usize) -> (same: bool)
    requires
        rows_shaped(matrix_rows(*a), width as int, height as int),
        rows_shaped(matrix_rows(*b), width as int, height as int),
    ensures
        same == (matrix_rows(*a) == matrix_rows(*b)),
{
    let ghost left = matrix_rows(*a);
    let ghost right = matrix_rows(*b);
    let mut r: usize = 0;
    while r < height
        invariant
            left == matrix_rows(*a),
            right == matrix_rows(*b),
            rows_shaped(left, width as int, height as int),
            rows_shaped(right, width as int, height as int),
            r <= height,
            forall|i: int| 0 <= i < r ==> #[trigger] left[i] == right[i],
        decreases height - r,
    {
        let mut c: usize = 0;
        while c < width
            invariant
                left == matrix_rows(*a),
                right == matrix_rows(*b),
                rows_shaped(left, width as int, height as int),
                rows_shaped(right, width as int, height as int),
                r < height,
                c <= width,
                forall|j: int| 0 <= j < c ==> left[r as int][j] == right[r as int][j],
            decreases width - c,
        {
            if matrix_get(a, r, c) != matrix_get(b, r, c) {
                return false;
            }
            c = c + 1;
        }
        proof {
            assert(left[r as int] =~= right[r as int]);
        }
        r = r + 1;
    }
    proof {
        assert(left =~= right);
    }
    true
}

} // verus!
