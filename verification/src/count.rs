//! Counting the cells of a rectangle that satisfy a predicate.

use crate::board::Cell;
use vstd::prelude::*;

verus! {

/// The number of cells `(row, c)` with `0 <= c < upto` that satisfy `pred`.
pub open spec fn count_in_row(pred: spec_fn(Cell) -> bool, row: int, upto: int) -> nat
    decreases upto,
{
    if upto <= 0 {
        0
    } else {
        count_in_row(pred, row, upto - 1) + if pred((row, upto - 1)) {
            1nat
        } else {
            0nat
        }
    }
}

/// The number of cells `(r, c)` with `0 <= r < upto` and `0 <= c < width`
/// that satisfy `pred`.
pub open spec fn count_in_rows(pred: spec_fn(Cell) -> bool, width: int, upto: int) -> nat
    decreases upto,
{
    if upto <= 0 {
        0
    } else {
        count_in_rows(pred, width, upto - 1) + count_in_row(pred, upto - 1, width)
    }
}

/// `small` holds of no cell of the rectangle of which `large` does not.
pub open spec fn within(
    small: spec_fn(Cell) -> bool,
    large: spec_fn(Cell) -> bool,
    width: int,
    height: int,
) -> bool {
    forall|cell: Cell|
        0 <= cell.0 < height && 0 <= cell.1 < width && #[trigger] small(cell) ==> large(cell)
}

pub proof fn lemma_row_bound(pred: spec_fn(Cell) -> bool, row: int, upto: int)
    requires
        0 <= upto,
    ensures
        count_in_row(pred, row, upto) <= upto,
    decreases upto,
{
    if upto > 0 {
        lemma_row_bound(pred, row, upto - 1);
    }
}

pub proof fn lemma_rows_bound(pred: spec_fn(Cell) -> bool, width: int, upto: int)
    requires
        0 <= upto,
        0 <= width,
    ensures
        count_in_rows(pred, width, upto) <= upto * width,
    decreases upto,
{
    if upto > 0 {
        lemma_rows_bound(pred, width, upto - 1);
        lemma_row_bound(pred, upto - 1, width);
        assert((upto - 1) * width + width == upto * width) by (nonlinear_arith);
    } else {
        assert(upto * width == 0) by (nonlinear_arith)
            requires
                upto == 0,
        ;
    }
}

pub proof fn lemma_row_monotone(
    small: spec_fn(Cell) -> bool,
    large: spec_fn(Cell) -> bool,
    row: int,
    upto: int,
)
    requires
        forall|c: int| 0 <= c < upto && #[trigger] small((row, c)) ==> large((row, c)),
    ensures
        count_in_row(small, row, upto) <= count_in_row(large, row, upto),
    decreases upto,
{
    if upto > 0 {
        lemma_row_monotone(small, large, row, upto - 1);
    }
}

pub proof fn lemma_row_strict(
    small: spec_fn(Cell) -> bool,
    large: spec_fn(Cell) -> bool,
    row: int,
    upto: int,
    col: int,
)
    requires
        forall|c: int| 0 <= c < upto && #[trigger] small((row, c)) ==> large((row, c)),
        0 <= col < upto,
        large((row, col)),
        !small((row, col)),
    ensures
        count_in_row(small, row, upto) < count_in_row(large, row, upto),
    decreases upto,
{
    if col == upto - 1 {
        lemma_row_monotone(small, large, row, upto - 1);
    } else {
        lemma_row_strict(small, large, row, upto - 1, col);
    }
}

/// A predicate that holds of fewer cells counts fewer cells.
pub proof fn lemma_rows_monotone(
    small: spec_fn(Cell) -> bool,
    large: spec_fn(Cell) -> bool,
    width: int,
    height: int,
    upto: int,
)
    requires
        within(small, large, width, height),
        upto <= height,
    ensures
        count_in_rows(small, width, upto) <= count_in_rows(large, width, upto),
    decreases upto,
{
    if upto > 0 {
        lemma_rows_monotone(small, large, width, height, upto - 1);
        lemma_row_monotone(small, large, upto - 1, width);
    }
}

/// A predicate that misses a cell which a larger one has counts strictly
/// fewer cells.
pub proof fn lemma_rows_strict(
    small: spec_fn(Cell) -> bool,
    large: spec_fn(Cell) -> bool,
    width: int,
    height: int,
    upto: int,
    cell: Cell,
)
    requires
        within(small, large, width, height),
        upto <= height,
        0 <= cell.0 < upto,
        0 <= cell.1 < width,
        large(cell),
        !small(cell),
    ensures
        count_in_rows(small, width, upto) < count_in_rows(large, width, upto),
    decreases upto,
{
    if cell.0 == upto - 1 {
        lemma_rows_monotone(small, large, width, height, upto - 1);
        lemma_row_strict(small, large, upto - 1, width, cell.1);
    } else {
        lemma_rows_strict(small, large, width, height, upto - 1, cell);
        lemma_row_monotone(small, large, upto - 1, width);
    }
}

} // verus!
